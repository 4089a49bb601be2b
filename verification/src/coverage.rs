//! What path rules cover.

use crate::path;
use crate::path::PartView;
use crate::policy;
use crate::policy::{GlobView, PolicyView, RuleErrorView, RuleSetView, RuleView};
use crate::text;
use vstd::prelude::*;

verus! {

/// One rule by itself.
pub open spec fn alone(rule: RuleView, ignore_case: bool) -> RuleSetView {
    RuleSetView { rules: seq![rule], ignore_case }
}

proof fn lemma_alone(root: Seq<PartView>, rule: RuleView, ignore_case: bool)
    ensures
        ({
            let base = path::normalized(root);
            let result = policy::compiled(root, alone(rule, ignore_case));
            match rule {
                RuleView::Exact(given) => {
                    &&& result is Ok
                    &&& result->Ok_0.root == base
                    &&& result->Ok_0.ignore_case == ignore_case
                    &&& result->Ok_0.exact == seq![policy::anchored_path(base, given)]
                    &&& result->Ok_0.globs == Seq::<GlobView>::empty()
                },
                RuleView::Glob(pattern) => match policy::compiled_glob(pattern, ignore_case) {
                    Ok(glob) => {
                        &&& result is Ok
                        &&& result->Ok_0.root == base
                        &&& result->Ok_0.ignore_case == ignore_case
                        &&& result->Ok_0.exact == Seq::<Seq<PartView>>::empty()
                        &&& result->Ok_0.globs == seq![glob]
                    },
                    Err(error) => result == Err::<PolicyView, RuleErrorView>(error),
                },
            }
        }),
{
    let base = path::normalized(root);
    let rules = seq![rule];
    assert(rules.drop_last() =~= Seq::<RuleView>::empty());
    assert(rules.last() == rule);
    reveal_with_fuel(policy::compiled_rules, 2);
    let empty = policy::compiled_rules(base, rules.drop_last(), ignore_case);
    assert(empty is Ok);
    match rule {
        RuleView::Exact(given) => {
            assert(Seq::<Seq<PartView>>::empty().push(policy::anchored_path(base, given))
                =~= seq![policy::anchored_path(base, given)]);
        },
        RuleView::Glob(pattern) => {
            if let Ok(glob) = policy::compiled_glob(pattern, ignore_case) {
                assert(Seq::<GlobView>::empty().push(glob) =~= seq![glob]);
            }
        },
    }
}

proof fn lemma_alone_matches(
    root: Seq<PartView>,
    rule: RuleView,
    ignore_case: bool,
    given: Seq<PartView>,
)
    requires
        policy::compiled(root, alone(rule, ignore_case)) is Ok,
    ensures
        policy::compiled(root, alone(rule, ignore_case))->Ok_0.matches(given) == match rule {
            RuleView::Exact(exact) => policy::covered(
                path::normalized(given),
                policy::anchored_path(path::normalized(root), exact),
                ignore_case,
            ),
            RuleView::Glob(pattern) => glob_covers(
                path::normalized(root),
                policy::compiled_glob(pattern, ignore_case)->Ok_0,
                ignore_case,
                given,
            ),
        },
{
    lemma_alone(root, rule, ignore_case);
    let one = policy::compiled(root, alone(rule, ignore_case))->Ok_0;
    let base = path::normalized(root);
    let plain = path::normalized(given);
    match rule {
        RuleView::Exact(exact) => {
            assert(one.exact[0] == policy::anchored_path(base, exact));
        },
        RuleView::Glob(pattern) => {
            let glob = policy::compiled_glob(pattern, ignore_case)->Ok_0;
            assert(one.globs[0] == glob);
            let names = policy::names_of(plain.skip(base.len() as int), ignore_case);
            if glob_covers(base, glob, ignore_case, given) {
                let count = choose|count: int|
                    0 <= count <= names.len() && glob.matches(#[trigger] names.take(count));
                assert(one.globs[0].matches(names.take(count)));
            }
        },
    }
}

/// Whether a compiled pattern covers a path below a root.
spec fn glob_covers(
    base: Seq<PartView>,
    glob: GlobView,
    ignore_case: bool,
    given: Seq<PartView>,
) -> bool {
    let plain = path::normalized(given);
    let names = policy::names_of(plain.skip(base.len() as int), ignore_case);
    &&& path::within(plain, base)
    &&& exists|count: int|
        0 <= count <= names.len() && glob.matches(#[trigger] names.take(count))
}

/// What compiling keeps of the rules.
proof fn lemma_compiled_rules(root: Seq<PartView>, rules: Seq<RuleView>, ignore_case: bool)
    ensures
        ({
            let base = path::normalized(root);
            let result = policy::compiled_rules(base, rules, ignore_case);
            &&& result is Ok <==> forall|i: int|
                0 <= i < rules.len() ==> policy::compiled(
                    root,
                    alone(#[trigger] rules[i], ignore_case),
                ) is Ok
            &&& result is Ok ==> {
                let all = result->Ok_0;
                &&& all.root == base
                &&& all.ignore_case == ignore_case
                &&& forall|i: int|
                    0 <= i < rules.len() ==> (#[trigger] rules[i] matches RuleView::Exact(given)
                        ==> all.exact.contains(policy::anchored_path(base, given)))
                &&& forall|i: int|
                    0 <= i < rules.len() ==> (#[trigger] rules[i] matches RuleView::Glob(pattern)
                        ==> all.globs.contains(
                        policy::compiled_glob(pattern, ignore_case)->Ok_0,
                    ))
                &&& forall|exact: Seq<PartView>| #[trigger]
                    all.exact.contains(exact) ==> exists|i: int|
                        0 <= i < rules.len() && (#[trigger] rules[i] is Exact) && exact
                            == policy::anchored_path(base, rules[i]->Exact_0)
                &&& forall|glob: GlobView| #[trigger]
                    all.globs.contains(glob) ==> exists|i: int|
                        0 <= i < rules.len() && (#[trigger] rules[i] is Glob)
                            && policy::compiled_glob(rules[i]->Glob_0, ignore_case) == Ok::<
                            GlobView,
                            RuleErrorView,
                        >(glob)
            }
        }),
    decreases rules.len(),
{
    let base = path::normalized(root);
    let result = policy::compiled_rules(base, rules, ignore_case);
    if rules.len() == 0 {
        assert(result->Ok_0.exact =~= Seq::<Seq<PartView>>::empty());
    } else {
        let front = rules.drop_last();
        let last = rules.last();
        assert(rules[rules.len() - 1] == last);
        lemma_compiled_rules(root, front, ignore_case);
        lemma_alone(root, last, ignore_case);
        let before = policy::compiled_rules(base, front, ignore_case);
        assert forall|i: int| 0 <= i < front.len() implies front[i] == #[trigger] rules[i] by {}
        if before is Err {
            let i = choose|i: int|
                0 <= i < front.len() && !(policy::compiled(
                    root,
                    alone(#[trigger] front[i], ignore_case),
                ) is Ok);
            assert(!(policy::compiled(root, alone(rules[i], ignore_case)) is Ok));
        } else {
            assert forall|i: int| 0 <= i < front.len() implies policy::compiled(
                root,
                alone(#[trigger] rules[i], ignore_case),
            ) is Ok by {
                assert(policy::compiled(root, alone(front[i], ignore_case)) is Ok);
            }
            if result is Err {
                assert(!(policy::compiled(root, alone(rules[rules.len() - 1], ignore_case)) is Ok));
            } else {
                lemma_compiled_last(root, rules, ignore_case);
            }
        }
    }
}

proof fn lemma_contains_push<A>(items: Seq<A>, last: A)
    ensures
        forall|one: A| #[trigger]
            items.push(last).contains(one) <==> items.contains(one) || one == last,
{
    assert forall|one: A| #[trigger]
        items.push(last).contains(one) <==> items.contains(one) || one == last by {
        if items.contains(one) {
            let k = choose|k: int| 0 <= k < items.len() && items[k] == one;
            assert(items.push(last)[k] == one);
        }
        if one == last {
            assert(items.push(last)[items.len() as int] == one);
        }
        if items.push(last).contains(one) {
            let k = choose|k: int| 0 <= k < items.push(last).len() && items.push(last)[k] == one;
            if k < items.len() {
                assert(items[k] == one);
            }
        }
    }
}

proof fn lemma_compiled_last(root: Seq<PartView>, rules: Seq<RuleView>, ignore_case: bool)
    requires
        rules.len() > 0,
        policy::compiled_rules(path::normalized(root), rules, ignore_case) is Ok,
        ({
            let base = path::normalized(root);
            let front = rules.drop_last();
            let before = policy::compiled_rules(base, front, ignore_case);
            &&& before is Ok
            &&& before->Ok_0.root == base
            &&& before->Ok_0.ignore_case == ignore_case
            &&& forall|i: int|
                0 <= i < front.len() ==> (#[trigger] front[i] matches RuleView::Exact(given)
                    ==> before->Ok_0.exact.contains(policy::anchored_path(base, given)))
            &&& forall|i: int|
                0 <= i < front.len() ==> (#[trigger] front[i] matches RuleView::Glob(pattern)
                    ==> before->Ok_0.globs.contains(
                    policy::compiled_glob(pattern, ignore_case)->Ok_0,
                ))
            &&& forall|exact: Seq<PartView>| #[trigger]
                before->Ok_0.exact.contains(exact) ==> exists|i: int|
                    0 <= i < front.len() && (#[trigger] front[i] is Exact) && exact
                        == policy::anchored_path(base, front[i]->Exact_0)
            &&& forall|glob: GlobView| #[trigger]
                before->Ok_0.globs.contains(glob) ==> exists|i: int|
                    0 <= i < front.len() && (#[trigger] front[i] is Glob)
                        && policy::compiled_glob(front[i]->Glob_0, ignore_case) == Ok::<
                        GlobView,
                        RuleErrorView,
                    >(glob)
        }),
    ensures
        ({
            let base = path::normalized(root);
            let all = policy::compiled_rules(base, rules, ignore_case)->Ok_0;
            &&& all.root == base
            &&& all.ignore_case == ignore_case
            &&& forall|i: int|
                0 <= i < rules.len() ==> (#[trigger] rules[i] matches RuleView::Exact(given)
                    ==> all.exact.contains(policy::anchored_path(base, given)))
            &&& forall|i: int|
                0 <= i < rules.len() ==> (#[trigger] rules[i] matches RuleView::Glob(pattern)
                    ==> all.globs.contains(policy::compiled_glob(pattern, ignore_case)->Ok_0))
            &&& forall|exact: Seq<PartView>| #[trigger]
                all.exact.contains(exact) ==> exists|i: int|
                    0 <= i < rules.len() && (#[trigger] rules[i] is Exact) && exact
                        == policy::anchored_path(base, rules[i]->Exact_0)
            &&& forall|glob: GlobView| #[trigger]
                all.globs.contains(glob) ==> exists|i: int|
                    0 <= i < rules.len() && (#[trigger] rules[i] is Glob)
                        && policy::compiled_glob(rules[i]->Glob_0, ignore_case) == Ok::<
                        GlobView,
                        RuleErrorView,
                    >(glob)
        }),
{
    let base = path::normalized(root);
    let front = rules.drop_last();
    let last = rules.last();
    let before = policy::compiled_rules(base, front, ignore_case)->Ok_0;
    let all = policy::compiled_rules(base, rules, ignore_case)->Ok_0;
    assert(rules[rules.len() - 1] == last);
    assert forall|i: int| 0 <= i < front.len() implies front[i] == #[trigger] rules[i] by {}
    match last {
        RuleView::Exact(given) => {
            lemma_contains_push(before.exact, policy::anchored_path(base, given));
        },
        RuleView::Glob(pattern) => {
            lemma_contains_push(
                before.globs,
                policy::compiled_glob(pattern, ignore_case)->Ok_0,
            );
        },
    }
    assert forall|exact: Seq<PartView>| #[trigger] all.exact.contains(exact) implies exists|i: int|
        0 <= i < rules.len() && (#[trigger] rules[i] is Exact) && exact == policy::anchored_path(
            base,
            rules[i]->Exact_0,
        ) by {
        if before.exact.contains(exact) {
            let i = choose|i: int|
                0 <= i < front.len() && (#[trigger] front[i] is Exact) && exact
                    == policy::anchored_path(base, front[i]->Exact_0);
            assert(rules[i] is Exact);
        } else {
            assert(rules[rules.len() - 1] is Exact);
        }
    }
    assert forall|glob: GlobView| #[trigger] all.globs.contains(glob) implies exists|i: int|
        0 <= i < rules.len() && (#[trigger] rules[i] is Glob) && policy::compiled_glob(
            rules[i]->Glob_0,
            ignore_case,
        ) == Ok::<GlobView, RuleErrorView>(glob) by {
        if before.globs.contains(glob) {
            let i = choose|i: int|
                0 <= i < front.len() && (#[trigger] front[i] is Glob) && policy::compiled_glob(
                    front[i]->Glob_0,
                    ignore_case,
                ) == Ok::<GlobView, RuleErrorView>(glob);
            assert(rules[i] is Glob);
        } else {
            assert(rules[rules.len() - 1] is Glob);
        }
    }
}

/// Rules can be compiled where each of them can be by itself.
pub proof fn law_rules_are_refused_for_one_of_them(
    root: Seq<PartView>,
    set: RuleSetView,
)
    ensures
        policy::compiled(root, set) is Ok <==> forall|i: int|
            0 <= i < set.rules.len() ==> policy::compiled(
                root,
                alone(#[trigger] set.rules[i], set.ignore_case),
            ) is Ok,
{
    lemma_compiled_rules(root, set.rules, set.ignore_case);
}

/// A policy matches exactly what one of its rules matches by itself: every
/// rule counts, wherever it stands among the others.
pub proof fn law_a_policy_matches_what_one_of_its_rules_does(
    root: Seq<PartView>,
    set: RuleSetView,
    given: Seq<PartView>,
)
    requires
        policy::compiled(root, set) is Ok,
    ensures
        policy::compiled(root, set)->Ok_0.matches(given) <==> exists|i: int|
            0 <= i < set.rules.len() && policy::compiled(
                root,
                alone(#[trigger] set.rules[i], set.ignore_case),
            )->Ok_0.matches(given),
{
    let rules = set.rules;
    let ignore_case = set.ignore_case;
    lemma_compiled_rules(root, rules, ignore_case);
    let all = policy::compiled(root, set)->Ok_0;
    let base = path::normalized(root);
    let plain = path::normalized(given);
    let names = policy::names_of(plain.skip(base.len() as int), ignore_case);
    if all.matches(given) {
        if exists|i: int|
            0 <= i < all.exact.len() && policy::covered(
                plain,
                #[trigger] all.exact[i],
                ignore_case,
            ) {
            let k = choose|i: int|
                0 <= i < all.exact.len() && policy::covered(
                    plain,
                    #[trigger] all.exact[i],
                    ignore_case,
                );
            assert(all.exact.contains(all.exact[k]));
            let i = choose|i: int|
                0 <= i < rules.len() && (#[trigger] rules[i] is Exact) && all.exact[k]
                    == policy::anchored_path(base, rules[i]->Exact_0);
            assert(policy::compiled(root, alone(rules[i], ignore_case)) is Ok);
            lemma_alone_matches(root, rules[i], ignore_case, given);
        } else {
            let (count, g) = choose|count: int, g: int|
                0 <= count <= names.len() && 0 <= g < all.globs.len()
                    && #[trigger] all.globs[g].matches(#[trigger] names.take(count));
            assert(all.globs.contains(all.globs[g]));
            let i = choose|i: int|
                0 <= i < rules.len() && (#[trigger] rules[i] is Glob) && policy::compiled_glob(
                    rules[i]->Glob_0,
                    ignore_case,
                ) == Ok::<GlobView, RuleErrorView>(all.globs[g]);
            assert(policy::compiled(root, alone(rules[i], ignore_case)) is Ok);
            lemma_alone_matches(root, rules[i], ignore_case, given);
            assert(all.globs[g].matches(names.take(count)));
        }
    }
    if exists|i: int|
        0 <= i < rules.len() && policy::compiled(
            root,
            alone(#[trigger] rules[i], ignore_case),
        )->Ok_0.matches(given) {
        let i = choose|i: int|
            0 <= i < rules.len() && policy::compiled(
                root,
                alone(#[trigger] rules[i], ignore_case),
            )->Ok_0.matches(given);
        assert(policy::compiled(root, alone(rules[i], ignore_case)) is Ok);
        lemma_alone_matches(root, rules[i], ignore_case, given);
        match rules[i] {
            RuleView::Exact(exact) => {
                let wanted = policy::anchored_path(base, exact);
                assert(all.exact.contains(wanted));
                let k = choose|k: int| 0 <= k < all.exact.len() && all.exact[k] == wanted;
                assert(policy::covered(plain, all.exact[k], ignore_case));
            },
            RuleView::Glob(pattern) => {
                let wanted = policy::compiled_glob(pattern, ignore_case)->Ok_0;
                assert(all.globs.contains(wanted));
                let k = choose|k: int| 0 <= k < all.globs.len() && all.globs[k] == wanted;
                let count = choose|count: int|
                    0 <= count <= names.len() && wanted.matches(#[trigger] names.take(count));
                assert(all.globs[k].matches(names.take(count)));
            },
        }
    }
}

/// More rules never match less: what a policy matches, one that has all its
/// rules and others, in whatever order, matches too. So the order of rules
/// does not matter either, nor does a rule that stands there twice.
pub proof fn law_more_rules_match_no_less(
    root: Seq<PartView>,
    fewer: RuleSetView,
    more: RuleSetView,
    given: Seq<PartView>,
)
    requires
        fewer.ignore_case == more.ignore_case,
        forall|i: int|
            0 <= i < fewer.rules.len() ==> more.rules.contains(#[trigger] fewer.rules[i]),
        policy::compiled(root, more) is Ok,
    ensures
        policy::compiled(root, fewer) is Ok,
        policy::compiled(root, fewer)->Ok_0.matches(given) ==> policy::compiled(
            root,
            more,
        )->Ok_0.matches(given),
{
    let ignore_case = more.ignore_case;
    law_rules_are_refused_for_one_of_them(root, fewer);
    law_rules_are_refused_for_one_of_them(root, more);
    assert forall|i: int| 0 <= i < fewer.rules.len() implies policy::compiled(
        root,
        alone(#[trigger] fewer.rules[i], ignore_case),
    ) is Ok by {
        assert(more.rules.contains(fewer.rules[i]));
        let k = choose|k: int| 0 <= k < more.rules.len() && more.rules[k] == fewer.rules[i];
        assert(policy::compiled(root, alone(more.rules[k], ignore_case)) is Ok);
    }
    law_a_policy_matches_what_one_of_its_rules_does(root, fewer, given);
    law_a_policy_matches_what_one_of_its_rules_does(root, more, given);
    if policy::compiled(root, fewer)->Ok_0.matches(given) {
        let i = choose|i: int|
            0 <= i < fewer.rules.len() && policy::compiled(
                root,
                alone(#[trigger] fewer.rules[i], ignore_case),
            )->Ok_0.matches(given);
        assert(more.rules.contains(fewer.rules[i]));
        let k = choose|k: int| 0 <= k < more.rules.len() && more.rules[k] == fewer.rules[i];
        assert(policy::compiled(root, alone(more.rules[k], ignore_case))->Ok_0.matches(given));
    }
}

/// A policy without rules matches nothing.
pub proof fn law_no_rules_match_nothing(
    root: Seq<PartView>,
    ignore_case: bool,
    given: Seq<PartView>,
)
    ensures
        policy::compiled(root, RuleSetView { rules: Seq::empty(), ignore_case }) is Ok,
        !policy::compiled(root, RuleSetView { rules: Seq::empty(), ignore_case })->Ok_0.matches(
            given,
        ),
{
    let set = RuleSetView { rules: Seq::empty(), ignore_case };
    law_rules_are_refused_for_one_of_them(root, set);
    law_a_policy_matches_what_one_of_its_rules_does(root, set, given);
}

/// Whether every component is a name.
pub open spec fn names_only(parts: Seq<PartView>) -> bool {
    forall|i: int| 0 <= i < parts.len() ==> #[trigger] parts[i] is Name
}

/// Whether a path is absolute and holds names behind its root.
pub open spec fn plainly_absolute(parts: Seq<PartView>) -> bool {
    &&& parts.len() > 0
    &&& parts[0] is Root
    &&& forall|i: int| 1 <= i < parts.len() ==> #[trigger] parts[i] is Name
}

/// An exact rule, wherever it stands, matches its path and every path below
/// it: an absolute one as it stands, a relative one taken from the root.
pub proof fn law_an_exact_rule_covers_its_path_and_all_below(
    root: Seq<PartView>,
    set: RuleSetView,
    at: int,
    rest: Seq<PartView>,
)
    requires
        policy::compiled(root, set) is Ok,
        0 <= at < set.rules.len(),
        names_only(rest),
    ensures
        set.rules[at] matches RuleView::Exact(exact) ==> plainly_absolute(exact)
            ==> policy::compiled(root, set)->Ok_0.matches(exact + rest),
        set.rules[at] matches RuleView::Exact(exact) ==> names_only(exact) && plainly_absolute(root)
            ==> policy::compiled(root, set)->Ok_0.matches(root + exact + rest),
{
    if let RuleView::Exact(exact) = set.rules[at] {
        law_rules_are_refused_for_one_of_them(root, set);
        assert(policy::compiled(root, alone(set.rules[at], set.ignore_case)) is Ok);
        if plainly_absolute(exact) {
            let given = exact + rest;
            path::lemma_plain_is_normalized(exact);
            path::lemma_plain_is_normalized(given);
            assert(given.take(exact.len() as int) =~= exact);
            lemma_covered_prefix(given, exact, set.ignore_case);
            lemma_alone_matches(root, set.rules[at], set.ignore_case, given);
            law_a_policy_matches_what_one_of_its_rules_does(root, set, given);
        }
        if names_only(exact) && plainly_absolute(root) {
            let whole = root + exact;
            let given = root + exact + rest;
            path::lemma_plain_is_normalized(root);
            path::lemma_plain_is_normalized(whole);
            path::lemma_plain_is_normalized(given);
            assert(given.take(whole.len() as int) =~= whole);
            lemma_covered_prefix(given, whole, set.ignore_case);
            if exact.len() > 0 {
                assert(exact[0] is Name);
            }
            assert(path::joined(root, exact) == whole);
            lemma_alone_matches(root, set.rules[at], set.ignore_case, given);
            law_a_policy_matches_what_one_of_its_rules_does(root, set, given);
        }
    }
}

proof fn lemma_covered_prefix(given: Seq<PartView>, exact: Seq<PartView>, ignore_case: bool)
    requires
        exact.is_prefix_of(given),
    ensures
        policy::covered(given, exact, ignore_case),
{
    assert(given.take(exact.len() as int) =~= exact);
    assert forall|i: int| 0 <= i < exact.len() implies exact[i] == given[i] by {
        assert(given.take(exact.len() as int)[i] == given[i]);
    }
    assert(policy::folded(given).take(exact.len() as int) =~= policy::folded(exact));
}

/// An exact rule matches nothing but its path and what lies below it, where
/// the case of letters counts.
pub proof fn law_an_exact_rule_covers_nothing_else(
    root: Seq<PartView>,
    exact: Seq<PartView>,
    given: Seq<PartView>,
)
    requires
        plainly_absolute(exact),
        plainly_absolute(given),
    ensures
        policy::compiled(root, alone(RuleView::Exact(exact), false)) is Ok,
        policy::compiled(root, alone(RuleView::Exact(exact), false))->Ok_0.matches(given)
            <==> exact.is_prefix_of(given),
{
    lemma_alone(root, RuleView::Exact(exact), false);
    lemma_alone_matches(root, RuleView::Exact(exact), false, given);
    path::lemma_plain_is_normalized(exact);
    path::lemma_plain_is_normalized(given);
}

/// Where the case of letters does not count, an exact rule matches a path
/// whose first components are its own in lower case, and no other.
pub proof fn law_case_may_not_count(
    root: Seq<PartView>,
    exact: Seq<PartView>,
    given: Seq<PartView>,
)
    requires
        plainly_absolute(exact),
        plainly_absolute(given),
    ensures
        policy::compiled(root, alone(RuleView::Exact(exact), true)) is Ok,
        policy::compiled(root, alone(RuleView::Exact(exact), true))->Ok_0.matches(given) <==> {
            &&& exact.len() <= given.len()
            &&& forall|i: int|
                1 <= i < exact.len() ==> policy::lower_text(
                    text::lossy_text((#[trigger] exact[i])->Name_0),
                ) == policy::lower_text(text::lossy_text(given[i]->Name_0))
        },
{
    let rule = RuleView::Exact(exact);
    lemma_alone(root, rule, true);
    lemma_alone_matches(root, rule, true, given);
    path::lemma_plain_is_normalized(exact);
    path::lemma_plain_is_normalized(given);
    let left = policy::folded(given);
    let right = policy::folded(exact);
    if exact.len() <= given.len() {
        let head = left.take(exact.len() as int);
        if policy::covered(given, exact, true) {
            assert forall|i: int| 1 <= i < exact.len() implies policy::lower_text(
                text::lossy_text((#[trigger] exact[i])->Name_0),
            ) == policy::lower_text(text::lossy_text(given[i]->Name_0)) by {
                assert(head[i] == right[i]);
                assert(exact[i] is Name && given[i] is Name);
            }
        } else {
            if forall|i: int|
                1 <= i < exact.len() ==> policy::lower_text(
                    text::lossy_text((#[trigger] exact[i])->Name_0),
                ) == policy::lower_text(text::lossy_text(given[i]->Name_0)) {
                assert forall|i: int| 0 <= i < exact.len() implies head[i] == right[i] by {
                    if i >= 1 {
                        assert(exact[i] is Name && given[i] is Name);
                    }
                }
                assert(head =~= right);
            }
        }
    }
}

proof fn lemma_normalized_behind(left: Seq<PartView>, right: Seq<PartView>, rest: Seq<PartView>)
    requires
        path::normalized(left) == path::normalized(right),
    ensures
        path::normalized(left + rest) == path::normalized(right + rest),
    decreases rest.len(),
{
    if rest.len() == 0 {
        assert(left + rest =~= left);
        assert(right + rest =~= right);
    } else {
        lemma_normalized_behind(left, right, rest.drop_last());
        assert((left + rest).drop_last() =~= left + rest.drop_last());
        assert((right + rest).drop_last() =~= right + rest.drop_last());
    }
}

/// A `.` in a path counts for nothing, a name with `..` behind it neither, and
/// a `..` behind the root neither: rules and paths are compared without them.
pub proof fn law_paths_are_compared_without_dots(
    policy: PolicyView,
    front: Seq<PartView>,
    name: Seq<u8>,
    rest: Seq<PartView>,
)
    ensures
        policy.matches(front + seq![PartView::Current] + rest) == policy.matches(front + rest),
        policy.matches(front + seq![PartView::Name(name), PartView::Parent] + rest)
            == policy.matches(front + rest),
        policy.matches(seq![PartView::Root, PartView::Parent] + rest) == policy.matches(
            seq![PartView::Root] + rest,
        ),
        path::normalized(front + seq![PartView::Current] + rest) == path::normalized(front + rest),
        path::normalized(front + seq![PartView::Name(name), PartView::Parent] + rest)
            == path::normalized(front + rest),
        path::normalized(seq![PartView::Root, PartView::Parent] + rest) == path::normalized(
            seq![PartView::Root] + rest,
        ),
{
    let dotted = front + seq![PartView::Current];
    assert(dotted.drop_last() =~= front);
    lemma_normalized_behind(dotted, front, rest);
    let named = front + seq![PartView::Name(name)];
    let back = front + seq![PartView::Name(name), PartView::Parent];
    assert(named.drop_last() =~= front);
    assert(back.drop_last() =~= named);
    let before = path::normalized(front);
    assert(before.push(PartView::Name(name)).drop_last() =~= before);
    assert(path::normalized(named) == before.push(PartView::Name(name)));
    assert(path::normalized(back) == before);
    lemma_normalized_behind(back, front, rest);
    let top = seq![PartView::Root];
    let above = seq![PartView::Root, PartView::Parent];
    assert(top.drop_last() =~= Seq::<PartView>::empty());
    assert(above.drop_last() =~= top);
    assert(path::normalized(top) =~= top) by {
        assert(path::normalized(top.drop_last()) =~= Seq::<PartView>::empty());
    }
    lemma_normalized_behind(above, top, rest);
}

/// A pattern of one character matches what that character stands for: `*` any
/// text, `?` any one character, and any other character itself alone. The
/// empty pattern matches the empty text alone.
pub proof fn law_wildcards_stand_for_text(character: char, name: Seq<char>)
    ensures
        policy::wildcard_matches(Seq::empty(), name) <==> name.len() == 0,
        character == '*' ==> policy::wildcard_matches(seq![character], name),
        character == '?' ==> (policy::wildcard_matches(seq![character], name) <==> name.len() == 1),
        character != '*' && character != '?' ==> (policy::wildcard_matches(seq![character], name)
            <==> name == seq![character]),
    decreases name.len(),
{
    let one = seq![character];
    assert(one.last() == character);
    assert(one.drop_last() =~= Seq::<char>::empty());
    if character == '*' {
        if name.len() > 0 {
            law_wildcards_stand_for_text(character, name.drop_last());
        } else {
            assert(policy::wildcard_matches(one.drop_last(), name));
        }
    } else {
        if name.len() > 0 {
            assert(policy::wildcard_matches(one.drop_last(), name.drop_last())
                == (name.drop_last().len() == 0));
        }
        if name.len() == 1 && name[0] == character {
            assert(name =~= one);
        }
    }
}

/// A pattern in two parts matches a name in two parts, each part its own.
pub proof fn law_patterns_match_part_by_part(
    first: Seq<char>,
    second: Seq<char>,
    name: Seq<char>,
)
    ensures
        policy::wildcard_matches(first + second, name) <==> exists|k: int|
            0 <= k <= name.len() && policy::wildcard_matches(first, #[trigger] name.take(k))
                && policy::wildcard_matches(second, name.skip(k)),
    decreases second.len() + name.len(),
{
    let whole = first + second;
    let size = name.len() as int;
    if second.len() == 0 {
        assert(whole =~= first);
        assert(name.take(size) =~= name);
        assert(name.skip(size).len() == 0);
        if exists|k: int|
            0 <= k <= name.len() && policy::wildcard_matches(first, #[trigger] name.take(k))
                && policy::wildcard_matches(second, name.skip(k)) {
            let k = choose|k: int|
                0 <= k <= name.len() && policy::wildcard_matches(first, #[trigger] name.take(k))
                    && policy::wildcard_matches(second, name.skip(k));
            assert(name.skip(k).len() == 0);
        }
    } else {
        let shorter = second.drop_last();
        assert(whole.drop_last() =~= first + shorter);
        assert(whole.last() == second.last());
        assert forall|k: int| 0 <= k < size implies name.drop_last().take(k) =~= #[trigger] name.take(
            k,
        ) && name.skip(k).drop_last() =~= name.drop_last().skip(k) && name.skip(k).last()
            == name.last() by {}
        if second.last() == '*' {
            law_patterns_match_part_by_part(first, shorter, name);
            if size > 0 {
                law_patterns_match_part_by_part(first, second, name.drop_last());
            }
            if policy::wildcard_matches(whole, name) {
                if policy::wildcard_matches(first + shorter, name) {
                    let k = choose|k: int|
                        0 <= k <= name.len() && policy::wildcard_matches(
                            first,
                            #[trigger] name.take(k),
                        ) && policy::wildcard_matches(shorter, name.skip(k));
                    assert(policy::wildcard_matches(second, name.skip(k)));
                } else {
                    let front = name.drop_last();
                    let k = choose|k: int|
                        0 <= k <= front.len() && policy::wildcard_matches(
                            first,
                            #[trigger] front.take(k),
                        ) && policy::wildcard_matches(second, front.skip(k));
                    assert(name.take(k) =~= front.take(k));
                    assert(policy::wildcard_matches(second, name.skip(k)));
                }
            }
            if exists|k: int|
                0 <= k <= name.len() && policy::wildcard_matches(first, #[trigger] name.take(k))
                    && policy::wildcard_matches(second, name.skip(k)) {
                let k = choose|k: int|
                    0 <= k <= name.len() && policy::wildcard_matches(first, #[trigger] name.take(k))
                        && policy::wildcard_matches(second, name.skip(k));
                if !policy::wildcard_matches(shorter, name.skip(k)) {
                    assert(k < size);
                    let front = name.drop_last();
                    assert(front.take(k) =~= name.take(k));
                    assert(policy::wildcard_matches(second, front.skip(k)));
                }
            }
        } else {
            if size > 0 {
                law_patterns_match_part_by_part(first, shorter, name.drop_last());
                let front = name.drop_last();
                if policy::wildcard_matches(whole, name) {
                    let k = choose|k: int|
                        0 <= k <= front.len() && policy::wildcard_matches(
                            first,
                            #[trigger] front.take(k),
                        ) && policy::wildcard_matches(shorter, front.skip(k));
                    assert(name.take(k) =~= front.take(k));
                    assert(policy::wildcard_matches(second, name.skip(k)));
                }
                if exists|k: int|
                    0 <= k <= name.len() && policy::wildcard_matches(first, #[trigger] name.take(k))
                        && policy::wildcard_matches(second, name.skip(k)) {
                    let k = choose|k: int|
                        0 <= k <= name.len() && policy::wildcard_matches(
                            first,
                            #[trigger] name.take(k),
                        ) && policy::wildcard_matches(second, name.skip(k));
                    assert(name.skip(k).len() > 0);
                    assert(front.take(k) =~= name.take(k));
                    assert(policy::wildcard_matches(shorter, front.skip(k)));
                }
            } else {
                assert forall|k: int| 0 <= k <= size implies !policy::wildcard_matches(
                    second,
                    #[trigger] name.skip(k),
                ) by {
                    assert(name.skip(k).len() == 0);
                }
            }
        }
    }
}

/// A list of one component pattern matches any names at all where it is `**`,
/// and else one name that the pattern matches.
pub proof fn law_component_patterns_stand_for_names(
    pattern: Seq<char>,
    names: Seq<Seq<char>>,
)
    ensures
        policy::segments_match(Seq::empty(), names) <==> names.len() == 0,
        pattern == "**"@ ==> policy::segments_match(seq![pattern], names),
        pattern != "**"@ ==> (policy::segments_match(seq![pattern], names) <==> names.len() == 1
            && policy::wildcard_matches(pattern, names[0])),
    decreases names.len(),
{
    let one = seq![pattern];
    assert(one[0] == pattern);
    assert(one.drop_first() =~= Seq::<Seq<char>>::empty());
    if pattern == "**"@ {
        if names.len() > 0 {
            law_component_patterns_stand_for_names(pattern, names.drop_first());
        } else {
            assert(policy::segments_match(one.drop_first(), names));
        }
    } else if names.len() > 0 {
        assert(policy::segments_match(one.drop_first(), names.drop_first())
            == (names.drop_first().len() == 0));
    }
}

/// A list of component patterns in two parts matches names in two parts, each
/// part its own.
pub proof fn law_component_patterns_match_part_by_part(
    first: Seq<Seq<char>>,
    second: Seq<Seq<char>>,
    names: Seq<Seq<char>>,
)
    ensures
        policy::segments_match(first + second, names) <==> exists|k: int|
            0 <= k <= names.len() && policy::segments_match(first, #[trigger] names.take(k))
                && policy::segments_match(second, names.skip(k)),
    decreases first.len() + names.len(),
{
    let whole = first + second;
    let size = names.len() as int;
    if first.len() == 0 {
        assert(whole =~= second);
        assert(names.skip(0) =~= names);
        assert(names.take(0).len() == 0);
        if exists|k: int|
            0 <= k <= names.len() && policy::segments_match(first, #[trigger] names.take(k))
                && policy::segments_match(second, names.skip(k)) {
            let k = choose|k: int|
                0 <= k <= names.len() && policy::segments_match(first, #[trigger] names.take(k))
                    && policy::segments_match(second, names.skip(k));
            assert(names.take(k).len() == 0);
            assert(k == 0);
        }
    } else {
        let fewer = first.drop_first();
        assert(whole.drop_first() =~= fewer + second);
        assert(whole[0] == first[0]);
        let rest = names.drop_first();
        if first[0] == "**"@ {
            law_component_patterns_match_part_by_part(fewer, second, names);
            if size > 0 {
                law_component_patterns_match_part_by_part(first, second, rest);
            }
            if policy::segments_match(whole, names) {
                if policy::segments_match(fewer + second, names) {
                    let k = choose|k: int|
                        0 <= k <= names.len() && policy::segments_match(
                            fewer,
                            #[trigger] names.take(k),
                        ) && policy::segments_match(second, names.skip(k));
                    assert(policy::segments_match(first, names.take(k)));
                } else {
                    let k = choose|k: int|
                        0 <= k <= rest.len() && policy::segments_match(
                            first,
                            #[trigger] rest.take(k),
                        ) && policy::segments_match(second, rest.skip(k));
                    assert(names.take(k + 1).drop_first() =~= rest.take(k));
                    assert(names.skip(k + 1) =~= rest.skip(k));
                    assert(policy::segments_match(first, names.take(k + 1)));
                }
            }
            if exists|k: int|
                0 <= k <= names.len() && policy::segments_match(first, #[trigger] names.take(k))
                    && policy::segments_match(second, names.skip(k)) {
                let k = choose|k: int|
                    0 <= k <= names.len() && policy::segments_match(first, #[trigger] names.take(k))
                        && policy::segments_match(second, names.skip(k));
                if policy::segments_match(fewer, names.take(k)) {
                    assert(policy::segments_match(fewer + second, names));
                } else {
                    assert(k > 0);
                    assert(names.take(k).drop_first() =~= rest.take(k - 1));
                    assert(names.skip(k) =~= rest.skip(k - 1));
                    assert(policy::segments_match(first, rest.take(k - 1)));
                }
            }
        } else if size > 0 {
            law_component_patterns_match_part_by_part(fewer, second, rest);
            if policy::segments_match(whole, names) {
                let k = choose|k: int|
                    0 <= k <= rest.len() && policy::segments_match(fewer, #[trigger] rest.take(k))
                        && policy::segments_match(second, rest.skip(k));
                assert(names.take(k + 1).drop_first() =~= rest.take(k));
                assert(names.take(k + 1)[0] == names[0]);
                assert(names.skip(k + 1) =~= rest.skip(k));
                assert(policy::segments_match(first, names.take(k + 1)));
            }
            if exists|k: int|
                0 <= k <= names.len() && policy::segments_match(first, #[trigger] names.take(k))
                    && policy::segments_match(second, names.skip(k)) {
                let k = choose|k: int|
                    0 <= k <= names.len() && policy::segments_match(first, #[trigger] names.take(k))
                        && policy::segments_match(second, names.skip(k));
                assert(names.take(k).len() > 0);
                assert(names.take(k).drop_first() =~= rest.take(k - 1));
                assert(names.take(k)[0] == names[0]);
                assert(names.skip(k) =~= rest.skip(k - 1));
                assert(policy::segments_match(fewer, rest.take(k - 1)));
            }
        } else {
            assert forall|k: int| 0 <= k <= size implies !policy::segments_match(
                first,
                #[trigger] names.take(k),
            ) by {
                assert(names.take(k).len() == 0);
            }
        }
    }
}

/// The names of some components, as text that is compared.
pub open spec fn texts(parts: Seq<PartView>, ignore_case: bool) -> Seq<Seq<char>> {
    Seq::new(
        parts.len(),
        |i: int| policy::cased(text::lossy_text(parts[i]->Name_0), ignore_case),
    )
}

proof fn lemma_names_of(parts: Seq<PartView>, ignore_case: bool)
    requires
        names_only(parts),
    ensures
        policy::names_of(parts, ignore_case) == texts(parts, ignore_case),
    decreases parts.len(),
{
    if parts.len() > 0 {
        let front = parts.drop_last();
        assert forall|i: int| 0 <= i < front.len() implies #[trigger] front[i] is Name by {
            assert(parts[i] is Name);
        }
        lemma_names_of(front, ignore_case);
        assert(parts[parts.len() - 1] is Name);
        assert(texts(parts, ignore_case) =~= texts(front, ignore_case).push(
            texts(parts, ignore_case).last(),
        ));
    } else {
        assert(policy::names_of(parts, ignore_case) =~= texts(parts, ignore_case));
    }
}

/// A pattern covers the paths below the root of which some components, from
/// the first on where it is anchored, are matched by its component patterns,
/// and all that lies below them. It covers nothing outside the root.
pub proof fn law_a_pattern_covers_what_lies_below_a_match(
    root: Seq<PartView>,
    pattern: Seq<char>,
    ignore_case: bool,
    names: Seq<PartView>,
    elsewhere: Seq<PartView>,
)
    requires
        plainly_absolute(root),
        names_only(names),
        plainly_absolute(elsewhere),
        !root.is_prefix_of(elsewhere),
        policy::compiled_glob(pattern, ignore_case) is Ok,
    ensures
        policy::compiled(root, alone(RuleView::Glob(pattern), ignore_case)) is Ok,
        ({
            let one = policy::compiled(root, alone(RuleView::Glob(pattern), ignore_case))->Ok_0;
            let glob = policy::compiled_glob(pattern, ignore_case)->Ok_0;
            &&& !one.matches(elsewhere)
            &&& one.matches(root + names) <==> exists|from: int, to: int|
                0 <= from <= to <= names.len() && (glob.anchored ==> from == 0)
                    && policy::segments_match(
                    glob.segments,
                    texts(#[trigger] names.subrange(from, to), ignore_case),
                )
        }),
{
    let rule = RuleView::Glob(pattern);
    let glob = policy::compiled_glob(pattern, ignore_case)->Ok_0;
    lemma_alone(root, rule, ignore_case);
    let one = policy::compiled(root, alone(rule, ignore_case))->Ok_0;
    path::lemma_plain_is_normalized(root);
    path::lemma_plain_is_normalized(elsewhere);
    lemma_alone_matches(root, rule, ignore_case, elsewhere);
    let given = root + names;
    path::lemma_plain_is_normalized(given);
    lemma_alone_matches(root, rule, ignore_case, given);
    assert(given.skip(root.len() as int) =~= names);
    assert(given.take(root.len() as int) =~= root);
    lemma_names_of(names, ignore_case);
    let all = texts(names, ignore_case);
    assert forall|from: int, to: int| 0 <= from <= to <= names.len() implies all.take(to).skip(from)
        == texts(#[trigger] names.subrange(from, to), ignore_case) by {
        assert(all.take(to).skip(from) =~= texts(names.subrange(from, to), ignore_case));
    }
    if one.matches(given) {
        let count = choose|count: int|
            0 <= count <= all.len() && glob.matches(#[trigger] all.take(count));
        if glob.anchored {
            assert(all.take(count).skip(0) =~= all.take(count));
            assert(policy::segments_match(
                glob.segments,
                texts(names.subrange(0, count), ignore_case),
            ));
        } else {
            let start = choose|start: int|
                0 <= start <= all.take(count).len() && #[trigger] policy::segments_match(
                    glob.segments,
                    all.take(count).skip(start),
                );
            assert(policy::segments_match(
                glob.segments,
                texts(names.subrange(start, count), ignore_case),
            ));
        }
    }
    if exists|from: int, to: int|
        0 <= from <= to <= names.len() && (glob.anchored ==> from == 0) && policy::segments_match(
            glob.segments,
            texts(#[trigger] names.subrange(from, to), ignore_case),
        ) {
        let (from, to) = choose|from: int, to: int|
            0 <= from <= to <= names.len() && (glob.anchored ==> from == 0)
                && policy::segments_match(
                glob.segments,
                texts(#[trigger] names.subrange(from, to), ignore_case),
            );
        assert(all.take(to).skip(0) =~= all.take(to));
        assert(policy::segments_match(glob.segments, all.take(to).skip(from)));
        assert(glob.matches(all.take(to)));
    }
}

/// Whether some text is one component of a pattern: not empty, without a slash
/// or backslash, and without blanks around it.
pub open spec fn one_component(name: Seq<char>) -> bool {
    &&& name.len() > 0
    &&& forall|i: int| 0 <= i < name.len() ==> #[trigger] name[i] != '/' && name[i] != '\\'
    &&& !text::is_blank(name[0])
    &&& !text::is_blank(name.last())
}

proof fn lemma_split_behind(front: Seq<char>, name: Seq<char>)
    requires
        forall|i: int| 0 <= i < name.len() ==> #[trigger] name[i] != '/',
    ensures
        text::split(front.push('/') + name, '/') == text::split(front, '/').push(name),
    decreases name.len(),
{
    let whole = front.push('/') + name;
    if name.len() == 0 {
        assert(whole.drop_last() =~= front);
        assert(name =~= Seq::<char>::empty());
    } else {
        let shorter = name.drop_last();
        lemma_split_behind(front, shorter);
        assert(whole.drop_last() =~= front.push('/') + shorter);
        assert(name[name.len() - 1] != '/');
        let before = text::split(front, '/').push(shorter);
        assert(before.update(before.len() - 1, shorter.push(name.last())) =~= text::split(
            front,
            '/',
        ).push(name)) by {
            assert(shorter.push(name.last()) =~= name);
        }
    }
}

proof fn lemma_split_whole(name: Seq<char>)
    requires
        forall|i: int| 0 <= i < name.len() ==> #[trigger] name[i] != '/',
    ensures
        text::split(name, '/') == seq![name],
    decreases name.len(),
{
    if name.len() == 0 {
        assert(name =~= Seq::<char>::empty());
    } else {
        let shorter = name.drop_last();
        lemma_split_whole(shorter);
        assert(name[name.len() - 1] != '/');
        assert(seq![shorter].update(0, shorter.push(name.last())) =~= seq![name]) by {
            assert(shorter.push(name.last()) =~= name);
        }
    }
}

proof fn lemma_trimmed_whole(line: Seq<char>)
    requires
        line.len() > 0,
        !text::is_blank(line[0]),
        !text::is_blank(line.last()),
    ensures
        text::trimmed(line) == line,
{
}

proof fn lemma_filled_push(pieces: Seq<Seq<char>>, name: Seq<char>)
    requires
        name.len() > 0,
    ensures
        policy::filled(pieces.push(name)) == policy::filled(pieces).push(name),
{
    assert(pieces.push(name).drop_last() =~= pieces);
}

proof fn lemma_dot_slash_behind(front: Seq<char>, rest: Seq<char>)
    requires
        rest.len() > 0,
        rest[0] == '/',
        front.len() > 0 ==> front.last() != '.',
    ensures
        policy::without_dot_slash(front + rest) == policy::without_dot_slash(front) + rest,
    decreases front.len(),
{
    let whole = front + rest;
    if front.len() == 0 {
        assert(whole =~= rest);
        assert(policy::without_dot_slash(front) =~= front);
    } else if front.len() >= 2 && front[0] == '.' && front[1] == '/' {
        assert(whole.skip(2) =~= front.skip(2) + rest);
        if front.len() > 2 {
            assert(front.skip(2).last() == front.last());
        }
        lemma_dot_slash_behind(front.skip(2), rest);
    } else {
        if front.len() == 1 {
            assert(front[0] == front.last());
        }
    }
}

/// A pattern of one component is compiled to that component and may match at
/// any depth.
pub proof fn law_a_single_name_matches_at_any_depth(name: Seq<char>, ignore_case: bool)
    requires
        one_component(name),
    ensures
        policy::compiled_glob(name, ignore_case) == Ok::<GlobView, RuleErrorView>(
            GlobView { segments: seq![policy::cased(name, ignore_case)], anchored: false },
        ),
{
    lemma_trimmed_whole(name);
    assert(policy::slashed(name) =~= name);
    lemma_split_whole(name);
    let none = Seq::<Seq<char>>::empty();
    assert(none.push(name) =~= seq![name]);
    lemma_filled_push(none, name);
    assert(policy::filled(none) =~= none);
    assert(policy::without_dot_slash(name) == name);
    assert(policy::pattern_segments(name) =~= seq![name]);
    assert(policy::cased_segments(name, ignore_case) =~= seq![policy::cased(name, ignore_case)]);
}

/// A component behind a slash is one component more.
pub proof fn law_a_slash_begins_another_component(
    front: Seq<char>,
    name: Seq<char>,
    ignore_case: bool,
)
    requires
        policy::compiled_glob(front, ignore_case) is Ok,
        !text::is_blank(front[0]),
        !text::is_blank(front.last()),
        front.last() != '.',
        one_component(name),
    ensures
        policy::compiled_glob(front.push('/') + name, ignore_case) == Ok::<
            GlobView,
            RuleErrorView,
        >(
            GlobView {
                segments: policy::compiled_glob(front, ignore_case)->Ok_0.segments.push(
                    policy::cased(name, ignore_case),
                ),
                anchored: policy::compiled_glob(front, ignore_case)->Ok_0.anchored,
            },
        ),
{
    assert(front.len() > 0) by {
        if front.len() == 0 {
            assert(text::trimmed(front) =~= front);
        }
    }
    let whole = front.push('/') + name;
    lemma_trimmed_whole(front);
    lemma_trimmed_whole(whole);
    let plain = policy::slashed(front);
    assert(policy::slashed(whole) =~= plain.push('/') + name);
    let rest = seq!['/'] + name;
    assert(plain.push('/') + name =~= plain + rest);
    lemma_dot_slash_behind(plain, rest);
    let body = policy::without_dot_slash(plain);
    assert(body + rest =~= body.push('/') + name);
    lemma_split_behind(body, name);
    lemma_filled_push(text::split(body, '/'), name);
    assert(policy::pattern_segments(whole) == policy::pattern_segments(front).push(name));
    assert(policy::cased_segments(whole, ignore_case) =~= policy::cased_segments(
        front,
        ignore_case,
    ).push(policy::cased(name, ignore_case)));
    assert(policy::is_anchored(whole) == policy::is_anchored(front)) by {
        let long = policy::slashed(whole);
        assert(long[0] == plain[0]);
        if plain.len() > 1 {
            assert(long[1] == plain[1]);
        } else {
            assert(plain[0] != '.');
        }
    }
}

/// A slash in front of a pattern ties it to the root and changes nothing else.
pub proof fn law_a_leading_slash_ties_a_pattern_to_the_root(
    pattern: Seq<char>,
    ignore_case: bool,
)
    requires
        policy::compiled_glob(pattern, ignore_case) is Ok,
        !text::is_blank(pattern[0]),
        !text::is_blank(pattern.last()),
        pattern[0] != '.',
    ensures
        policy::compiled_glob(seq!['/'] + pattern, ignore_case) == Ok::<GlobView, RuleErrorView>(
            GlobView {
                anchored: true,
                ..policy::compiled_glob(pattern, ignore_case)->Ok_0
            },
        ),
{
    assert(pattern.len() > 0) by {
        if pattern.len() == 0 {
            assert(text::trimmed(pattern) =~= pattern);
        }
    }
    let whole = seq!['/'] + pattern;
    lemma_trimmed_whole(pattern);
    lemma_trimmed_whole(whole);
    let plain = policy::slashed(pattern);
    assert(policy::slashed(whole) =~= seq!['/'] + plain);
    assert(policy::without_dot_slash(plain) == plain);
    assert(policy::without_dot_slash(seq!['/'] + plain) == seq!['/'] + plain);
    lemma_filled_front(plain);
    assert(policy::pattern_segments(whole) == policy::pattern_segments(pattern));
    assert(policy::cased_segments(whole, ignore_case) =~= policy::cased_segments(
        pattern,
        ignore_case,
    ));
}

proof fn lemma_filled_front(plain: Seq<char>)
    ensures
        text::split(seq!['/'] + plain, '/') == seq![Seq::<char>::empty()] + text::split(plain, '/'),
        policy::filled(text::split(seq!['/'] + plain, '/')) == policy::filled(
            text::split(plain, '/'),
        ),
    decreases plain.len(),
{
    let whole = seq!['/'] + plain;
    let first = seq![Seq::<char>::empty()];
    text::lemma_split_nonempty(plain, '/');
    if plain.len() == 0 {
        assert(plain =~= Seq::<char>::empty());
        assert(whole.drop_last() =~= plain);
        assert(whole.last() == '/');
        assert(text::split(plain, '/') =~= first);
        assert(text::split(whole, '/') =~= first + text::split(plain, '/'));
    } else {
        lemma_filled_front(plain.drop_last());
        text::lemma_split_nonempty(plain.drop_last(), '/');
        assert(whole.drop_last() =~= seq!['/'] + plain.drop_last());
        assert(text::split(whole, '/') =~= first + text::split(plain, '/'));
    }
    lemma_filled_skips(text::split(plain, '/'));
}

proof fn lemma_filled_skips(pieces: Seq<Seq<char>>)
    ensures
        policy::filled(seq![Seq::<char>::empty()] + pieces) == policy::filled(pieces),
    decreases pieces.len(),
{
    let all = seq![Seq::<char>::empty()] + pieces;
    if pieces.len() == 0 {
        assert(all.drop_last() =~= pieces);
        assert(all.last().len() == 0);
    } else {
        lemma_filled_skips(pieces.drop_last());
        assert(all.drop_last() =~= seq![Seq::<char>::empty()] + pieces.drop_last());
        assert(all.last() == pieces.last());
    }
}

/// A pattern is refused where nothing but blanks, slashes and leading `./`
/// stands in it: the first where it is blank, the second where it has no
/// component.
pub proof fn law_empty_patterns_are_refused(pattern: Seq<char>, ignore_case: bool)
    ensures
        (forall|i: int| 0 <= i < pattern.len() ==> text::is_blank(#[trigger] pattern[i]))
            <==> policy::compiled_glob(pattern, ignore_case) == Err::<GlobView, RuleErrorView>(
            RuleErrorView { pattern: Seq::empty(), message: "pattern cannot be empty"@ },
        ),
        pattern == seq!['/'] ==> policy::compiled_glob(pattern, ignore_case) == Err::<
            GlobView,
            RuleErrorView,
        >(RuleErrorView { pattern, message: "pattern must identify a path"@ }),
{
    text::law_trimming_takes_blanks_from_the_ends(pattern);
    reveal_strlit("pattern cannot be empty");
    reveal_strlit("pattern must identify a path");
    assert("pattern cannot be empty"@ != "pattern must identify a path"@) by {
        assert("pattern cannot be empty"@[8] != "pattern must identify a path"@[8]);
    }
    let short = text::trimmed(pattern);
    if forall|i: int| 0 <= i < pattern.len() ==> text::is_blank(#[trigger] pattern[i]) {
        assert(short.len() == 0);
        assert(short =~= Seq::<char>::empty());
    }
    if pattern == seq!['/'] {
        lemma_trimmed_whole(pattern);
        assert(policy::slashed(pattern) =~= pattern);
        assert(policy::without_dot_slash(pattern) == pattern);
        let none = Seq::<char>::empty();
        assert(pattern.drop_last() =~= none);
        assert(text::split(none, '/') =~= seq![none]);
        let pieces = text::split(pattern, '/');
        assert(pieces =~= seq![none, none]);
        assert(pieces.drop_last() =~= seq![none]);
        assert(seq![none].drop_last() =~= Seq::<Seq<char>>::empty());
        assert(policy::filled(seq![none]) == policy::filled(Seq::<Seq<char>>::empty()));
        assert(policy::filled(pieces) == policy::filled(seq![none]));
        assert(policy::filled(Seq::<Seq<char>>::empty()).len() == 0);
    }
}

} // verus!
