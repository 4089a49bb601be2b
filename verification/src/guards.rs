//! What is let through: endpoints, unchanged files and assembled rules.

use crate::endpoint;
use crate::hashing;
use crate::hashing::{FileSnapshot, HashStage};
use crate::model::{DuplicateWarningKind, GroupView, ItemView};
use crate::path;
use crate::path::PartView;
use crate::policy::{Platform, RuleView};
use crate::session;
use crate::text;
use vstd::prelude::*;

verus! {

/// Whether a name is that of this computer on its own network.
pub open spec fn names_this_computer(host: Seq<char>) -> bool {
    host == "localhost"@ || host == "127.0.0.1"@ || host == "[::1]"@
}

/// Whether a text spells a port: digits, with or without a plus in front, of a
/// number from 1 to 65535.
pub open spec fn spells_port(port: Seq<char>) -> bool {
    text::spelled_number(port) matches Some(number) && 1 <= number <= 65535
}

proof fn lemma_position(value: Seq<char>, wanted: char, from: int)
    requires
        0 <= from <= value.len(),
    ensures
        from <= endpoint::position(value, wanted, from) <= value.len(),
        endpoint::position(value, wanted, from) < value.len() ==> value[endpoint::position(
            value,
            wanted,
            from,
        )] == wanted,
        forall|i: int|
            from <= i < endpoint::position(value, wanted, from) ==> #[trigger] value[i] != wanted,
    decreases value.len() - from,
{
    if from < value.len() && value[from] != wanted {
        lemma_position(value, wanted, from + 1);
    }
}

/// Whether an authority is a name of this computer, by itself or with a port.
pub open spec fn is_here(authority: Seq<char>) -> bool {
    ||| names_this_computer(authority)
    ||| exists|host: Seq<char>, port: Seq<char>|
        {
            &&& #[trigger] names_this_computer(host)
            &&& #[trigger] spells_port(port)
            &&& authority == host + ":"@ + port
        }
}

proof fn lemma_hosts()
    ensures
        "localhost"@.len() == 9,
        "127.0.0.1"@.len() == 9,
        "[::1]"@.len() == 5,
        ":"@ == seq![':'],
        forall|i: int| 0 <= i < 9 ==> #[trigger] "localhost"@[i] != ':' && "localhost"@[i] != '/'
            && "localhost"@[i] != '@',
        forall|i: int| 0 <= i < 9 ==> #[trigger] "127.0.0.1"@[i] != ':' && "127.0.0.1"@[i] != '/'
            && "127.0.0.1"@[i] != '@',
        forall|i: int| 0 <= i < 5 ==> #[trigger] "[::1]"@[i] != '/' && "[::1]"@[i] != '@',
        "localhost"@[0] == 'l',
        "127.0.0.1"@[0] == '1',
        "[::1]"@[0] == '[',
{
    reveal_strlit("localhost");
    reveal_strlit("127.0.0.1");
    reveal_strlit("[::1]");
    reveal_strlit(":");
    assert(":"@ =~= seq![':']);
    assert("localhost"@ =~= seq!['l', 'o', 'c', 'a', 'l', 'h', 'o', 's', 't']);
    assert("127.0.0.1"@ =~= seq!['1', '2', '7', '.', '0', '.', '0', '.', '1']);
    assert("[::1]"@ =~= seq!['[', ':', ':', '1', ']']);
}

proof fn lemma_here(authority: Seq<char>)
    ensures
        endpoint::is_loopback(authority) <==> is_here(authority),
{
    lemma_hosts();
    let bracketed = "[::1]"@;
    if endpoint::is_loopback(authority) {
        if text::starts(authority, bracketed) {
            let rest = authority.skip(5);
            assert(authority =~= bracketed + rest);
            if rest.len() == 0 {
                assert(authority =~= bracketed);
                assert(names_this_computer(authority));
            } else {
                let port = rest.drop_first();
                assert(rest =~= seq![':'] + port);
                assert(authority =~= bracketed + ":"@ + port);
                assert(names_this_computer(bracketed) && spells_port(port));
            }
        } else {
            lemma_position(authority, ':', 0);
            let colon = endpoint::position(authority, ':', 0);
            let host = authority.take(colon);
            if colon < authority.len() {
                let port = authority.skip(colon + 1);
                assert(authority =~= host + ":"@ + port);
                assert(names_this_computer(host) && spells_port(port));
            } else {
                assert(host =~= authority);
            }
        }
    }
    if is_here(authority) {
        if names_this_computer(authority) {
            lemma_here_plain(authority);
        } else {
            let (host, port) = choose|host: Seq<char>, port: Seq<char>|
                {
                    &&& #[trigger] names_this_computer(host)
                    &&& #[trigger] spells_port(port)
                    &&& authority == host + ":"@ + port
                };
            lemma_here_with_port(host, port);
        }
    }
}

proof fn lemma_here_plain(host: Seq<char>)
    requires
        names_this_computer(host),
    ensures
        endpoint::is_loopback(host),
{
    lemma_hosts();
    let bracketed = "[::1]"@;
    if host == bracketed {
        assert(host.take(5) =~= bracketed);
    } else {
        assert(!text::starts(host, bracketed)) by {
            if text::starts(host, bracketed) {
                assert(host.take(5)[0] == host[0]);
            }
        }
        lemma_position(host, ':', 0);
        let colon = endpoint::position(host, ':', 0);
        assert(colon == host.len());
        assert(host.take(colon) =~= host);
    }
}

proof fn lemma_here_with_port(host: Seq<char>, port: Seq<char>)
    requires
        names_this_computer(host),
        spells_port(port),
    ensures
        endpoint::is_loopback(host + ":"@ + port),
{
    lemma_hosts();
    let bracketed = "[::1]"@;
    let all = host + ":"@ + port;
    if host == bracketed {
        assert(all.take(5) =~= bracketed);
        assert(all.skip(5).drop_first() =~= port);
        assert(all.skip(5)[0] == ':');
    } else {
        assert(all[0] == host[0]);
        assert(!text::starts(all, bracketed)) by {
            if text::starts(all, bracketed) {
                assert(all.take(5)[0] == all[0]);
            }
        }
        lemma_position(all, ':', 0);
        let colon = endpoint::position(all, ':', 0);
        assert(all[9] == ':');
        assert(colon == 9) by {
            if colon < 9 {
                assert(all[colon] == host[colon]);
            }
        }
        assert(all.take(9) =~= host);
        assert(all.skip(10) =~= port);
    }
}

proof fn lemma_plain_digits_only(port: Seq<char>)
    requires
        spells_port(port),
    ensures
        !port.contains('/'),
        !port.contains('@'),
        port.len() > 0,
        port.last() != '/',
        !text::is_blank(port.last()),
{
    let digits = text::unsigned(port);
    assert forall|i: int| 0 <= i < port.len() implies #[trigger] port[i] == '+' || '0' <= port[i]
        <= '9' by {
        if port[0] == '+' {
            if i > 0 {
                assert(digits[i - 1] == port[i]);
            }
        } else {
            assert(digits[i] == port[i]);
        }
    }
    let last = port.len() - 1;
    assert(port[last] == port.last());
}

/// An endpoint of this computer over plain HTTP, with or without a port, is
/// accepted as it is.
pub proof fn law_local_endpoints_are_accepted(host: Seq<char>, port: Seq<char>)
    requires
        names_this_computer(host),
        spells_port(port),
    ensures
        endpoint::local_endpoint("http://"@ + host) == Ok::<Seq<char>, Seq<char>>(
            "http://"@ + host,
        ),
        endpoint::local_endpoint("http://"@ + host + ":"@ + port) == Ok::<Seq<char>, Seq<char>>(
            "http://"@ + host + ":"@ + port,
        ),
{
    lemma_hosts();
    lemma_plain_digits_only(port);
    lemma_here_plain(host);
    lemma_here_with_port(host, port);
    reveal_strlit("http://");
    reveal_strlit("localhost");
    reveal_strlit("127.0.0.1");
    reveal_strlit("[::1]");
    let scheme = "http://"@;
    let short = scheme + host;
    let long = scheme + host + ":"@ + port;
    assert(short[0] == 'h' && long[0] == 'h');
    assert(short.last() == host.last());
    assert(host.last() == 't' || host.last() == '1' || host.last() == ']');
    assert(long.last() == port.last());
    assert(text::trimmed(short) == short);
    assert(text::trimmed(long) == long);
    assert(endpoint::plain_endpoint(short) == short);
    assert(endpoint::plain_endpoint(long) == long);
    assert(short.take(7) =~= scheme);
    assert(long.take(7) =~= scheme);
    assert(short.skip(7) =~= host);
    assert(long.skip(7) =~= host + ":"@ + port);
    let authority = host + ":"@ + port;
    assert(!host.contains('/') && !host.contains('@'));
    assert forall|i: int| 0 <= i < authority.len() implies #[trigger] authority[i] != '/'
        && authority[i] != '@' by {
        if i < host.len() {
            assert(authority[i] == host[i]);
        } else if i == host.len() {
            assert(authority[i] == ':');
        } else {
            assert(authority[i] == port[i - host.len() - 1]);
        }
    }
}

/// Whatever is accepted is plain HTTP to a name of this computer, with or
/// without a port.
pub proof fn law_only_local_endpoints_are_accepted(given: Seq<char>)
    ensures
        endpoint::local_endpoint(given) matches Ok(accepted) ==> {
            &&& "http://"@.is_prefix_of(accepted)
            &&& is_here(accepted.skip(7))
        },
{
    reveal_strlit("http://");
    if let Ok(accepted) = endpoint::local_endpoint(given) {
        lemma_here(accepted.skip(7));
        assert(accepted.subrange(0, 7) =~= accepted.take(7));
    }
}

/// A file is what the scan saw where it has the length that was scanned and,
/// as far as the scan knew them, the identity and the time of modification.
pub proof fn law_files_are_compared_with_the_scan(item: ItemView, snapshot: FileSnapshot)
    ensures
        hashing::matches_scan(item, snapshot) <==> {
            &&& snapshot.length == item.size_bytes
            &&& item.file_identity matches Some(identity) ==> snapshot.identity == Some(identity)
            &&& item.modified_at_epoch_nanoseconds matches Some(expected) ==> {
                &&& snapshot.modified is Some
                &&& snapshot.modified->Some_0.seconds >= 0
                &&& snapshot.modified->Some_0.seconds * 1_000_000_000
                    + snapshot.modified->Some_0.nanoseconds == expected
            }
        },
{
}

/// A file that changed in length or in its time of modification, or is another
/// file, is told apart from what it was.
pub proof fn law_changes_between_snapshots_are_noticed(before: FileSnapshot, after: FileSnapshot)
    ensures
        before.length != after.length ==> !hashing::same_snapshot(before, after),
        before.modified != after.modified ==> !hashing::same_snapshot(before, after),
        before.identity is Some && after.identity is Some && before.identity != after.identity
            ==> !hashing::same_snapshot(before, after),
        before.length == after.length && before.modified == after.modified && (before.identity
            == after.identity || before.identity is None || after.identity is None)
            ==> hashing::same_snapshot(before, after),
{
}

/// What cannot be opened or read is unreadable, what cannot be looked at has
/// no metadata, and what is gone in the end has changed.
pub proof fn law_failures_are_told_by_their_stage(stage: HashStage)
    ensures
        hashing::stage_kind(stage) == DuplicateWarningKind::Unreadable <==> stage
            == HashStage::Opening || stage == HashStage::Reading,
        hashing::stage_kind(stage) == DuplicateWarningKind::ChangedDuringDetection <==> stage
            == HashStage::PathAfter,
        hashing::stage_kind(stage) != DuplicateWarningKind::NotRegularFile,
{
}

/// The rules of protection are those that were asked for and, unless they are
/// switched off, those of the operating system, and no others.
pub proof fn law_protection_is_what_was_asked_and_the_defaults(
    no_defaults: bool,
    defaults: Seq<RuleView>,
    asked: Seq<RuleView>,
    rule: RuleView,
)
    ensures
        session::protected_rules(no_defaults, defaults, asked).contains(rule) <==> asked.contains(
            rule,
        ) || (!no_defaults && defaults.contains(rule)),
{
    let all = session::protected_rules(no_defaults, defaults, asked);
    let front = if no_defaults {
        Seq::empty()
    } else {
        defaults
    };
    assert(all == front + asked);
    if asked.contains(rule) {
        let k = choose|k: int| 0 <= k < asked.len() && asked[k] == rule;
        assert(all[front.len() + k] == rule);
    }
    if front.contains(rule) {
        let k = choose|k: int| 0 <= k < front.len() && front[k] == rule;
        assert(all[k] == rule);
    }
    if all.contains(rule) {
        let k = choose|k: int| 0 <= k < all.len() && all[k] == rule;
        if k < front.len() {
            assert(front[k] == rule);
        } else {
            assert(asked[k - front.len()] == rule);
        }
    }
}

/// Whether a directory of a Linux system is protected by default.
pub open spec fn is_of_the_system(directory: Seq<char>) -> bool {
    ||| directory == "/boot"@
    ||| directory == "/dev"@
    ||| directory == "/etc"@
    ||| directory == "/lib"@
    ||| directory == "/lib64"@
    ||| directory == "/opt"@
    ||| directory == "/proc"@
    ||| directory == "/root"@
    ||| directory == "/run"@
    ||| directory == "/sbin"@
    ||| directory == "/sys"@
    ||| directory == "/usr"@
    ||| directory == "/var/cache"@
    ||| directory == "/var/lib"@
    ||| directory == "/var/log"@
}

/// On Linux the directories of the system are protected, on Windows those that
/// its environment names, and elsewhere none.
pub proof fn law_systems_are_protected_by_default(
    named: Seq<Seq<PartView>>,
    directory: Seq<char>,
    given: Seq<PartView>,
)
    ensures
        is_of_the_system(directory) ==> session::default_rules(
            Platform::Linux,
            named,
        ).contains(RuleView::Exact(path::components(text::bytes_of(directory)))),
        session::default_rules(Platform::Windows, named).contains(RuleView::Exact(given))
            <==> named.contains(given),
        session::default_rules(Platform::Other, named).len() == 0,
{
    let list = session::system_directories();
    let rules = session::linux_rules();
    if is_of_the_system(directory) {
        assert(list[0] == "/boot"@ && list[1] == "/dev"@ && list[2] == "/etc"@ && list[3]
            == "/lib"@ && list[4] == "/lib64"@ && list[5] == "/opt"@ && list[6] == "/proc"@
            && list[7] == "/root"@ && list[8] == "/run"@ && list[9] == "/sbin"@ && list[10]
            == "/sys"@ && list[11] == "/usr"@ && list[12] == "/var/cache"@ && list[13]
            == "/var/lib"@ && list[14] == "/var/log"@);
        let k = choose|k: int| 0 <= k < list.len() && list[k] == directory;
        assert(rules[k] == RuleView::Exact(path::components(text::bytes_of(directory))));
    }
    let le = crate::scanner::path_order();
    crate::scanner::lemma_path_ranking(|one: Seq<PartView>| one, le);
    let sorted = crate::order::sorted(named, le);
    crate::order::lemma_sorted_contains(named, given, le);
    lemma_repeats(sorted, given);
    let kept = session::without_repeats(sorted);
    let all = session::exact_rules(kept);
    if kept.contains(given) {
        let k = choose|k: int| 0 <= k < kept.len() && kept[k] == given;
        assert(all[k] == RuleView::Exact(given));
    }
    if all.contains(RuleView::Exact(given)) {
        let k = choose|k: int| 0 <= k < all.len() && all[k] == RuleView::Exact(given);
        assert(kept[k] == given);
    }
}

proof fn lemma_repeats(paths: Seq<Seq<PartView>>, given: Seq<PartView>)
    ensures
        session::without_repeats(paths).contains(given) <==> paths.contains(given),
        paths.len() > 0 ==> session::without_repeats(paths).len() > 0 && session::without_repeats(
            paths,
        ).last() == paths.last(),
    decreases paths.len(),
{
    let all = session::without_repeats(paths);
    if paths.len() > 0 {
        let front = paths.drop_last();
        lemma_repeats(front, given);
        let before = session::without_repeats(front);
        assert(paths[paths.len() - 1] == paths.last());
        if paths.contains(given) {
            let k = choose|k: int| 0 <= k < paths.len() && paths[k] == given;
            if k < front.len() {
                assert(front[k] == given);
                let j = choose|j: int| 0 <= j < before.len() && before[j] == given;
                assert(all[j] == given);
            } else {
                assert(all[all.len() - 1] == given);
            }
        }
        if all.contains(given) {
            let j = choose|j: int| 0 <= j < all.len() && all[j] == given;
            if j < before.len() {
                assert(before[j] == given);
                let k = choose|k: int| 0 <= k < front.len() && front[k] == given;
                assert(paths[k] == given);
            }
        }
    }
}

/// The protected copies are counted over all groups.
pub proof fn law_protected_copies_are_counted_over_all_groups(groups: Seq<GroupView>)
    ensures
        session::protected_copies(groups) == groups.fold_left(
            0int,
            |sum: int, group: GroupView| sum + group.protected_file_count,
        ),
    decreases groups.len(),
{
    if groups.len() > 0 {
        law_protected_copies_are_counted_over_all_groups(groups.drop_last());
    }
}

/// A text with a wildcard spells a pattern, and any other but a blank one a
/// path, of which a leading `~` stands for the home directory; blanks around
/// it do not count.
pub proof fn law_rules_are_spelled_as_patterns_or_paths(
    given: Seq<char>,
    home: Option<Seq<PartView>>,
)
    ensures
        ({
            let core = text::trimmed(given);
            let rule = session::rule_spelled(given, home);
            &&& rule is None <==> forall|i: int|
                0 <= i < given.len() ==> text::is_blank(#[trigger] given[i])
            &&& rule matches Some(RuleView::Glob(pattern)) ==> pattern == core && (pattern.contains(
                '*',
            ) || pattern.contains('?'))
            &&& rule is Some && (given.contains('*') || given.contains('?')) ==> rule == Some(
                RuleView::Glob(core),
            )
            &&& rule is Some && !given.contains('*') && !given.contains('?') ==> {
                let parts = path::components(text::bytes_of(core));
                if home is Some && parts.len() > 0 && parts[0] == PartView::Name(seq![126u8]) {
                    rule == Some(
                        RuleView::Exact(path::joined(home->Some_0, parts.drop_first())),
                    )
                } else {
                    rule == Some(RuleView::Exact(parts))
                }
            }
        }),
{
    text::law_trimming_takes_blanks_from_the_ends(given);
    let core = text::trimmed(given);
    let (s, e) = choose|start: int, end: int|
        {
            &&& 0 <= start <= end <= given.len()
            &&& core == #[trigger] given.subrange(start, end)
            &&& forall|i: int| 0 <= i < start ==> text::is_blank(#[trigger] given[i])
            &&& forall|i: int| end <= i < given.len() ==> text::is_blank(#[trigger] given[i])
            &&& start < end ==> !text::is_blank(given[start]) && !text::is_blank(given[end - 1])
        };
    assert forall|c: char| !text::is_blank(c) && #[trigger] given.contains(c) implies core.contains(
        c,
    ) by {
        let k = choose|k: int| 0 <= k < given.len() && given[k] == c;
        assert(core[k - s] == c);
    }
    assert forall|c: char| #[trigger] core.contains(c) implies given.contains(c) by {
        let k = choose|k: int| 0 <= k < core.len() && core[k] == c;
        assert(given[s + k] == c);
    }
    assert(!text::is_blank('*') && !text::is_blank('?'));
    if core.len() > 0 {
        assert(!text::is_blank(given[s]));
    } else {
        assert(s == e);
    }
    if !given.contains('*') && !given.contains('?') {
        assert(!core.contains('*') && !core.contains('?'));
    }
}

} // verus!
