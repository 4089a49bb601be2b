//! The decisions of a run: what is scanned, under which rules, and what comes
//! of it.

use crate::canvas::Theme;
use crate::model;
use crate::model::{
    DuplicateGroup, DuplicateReport, Finding, FindingView, GroupView, RelationshipReport,
    ScanResult, ScanView,
};
use crate::order;
use crate::path;
use crate::path::{FilePath, GivenView, PartView};
use crate::policy;
use crate::policy::{PathRule, Platform, RuleView};
use crate::progress;
use crate::progress::{
    AnalysisPhase, CancellationToken, EventView, ProgressEvent, ProgressSink, StopSignal,
    TokenSignal,
};
use crate::relationships;
use crate::relationships::RelationshipError;
use crate::report::{PolicySummary, PolicySummaryView};
use crate::rules;
use crate::rules::{RuleError, RuleOptions, RuleOptionsView};
use crate::scanner;
use crate::scanner::PathOrder;
use crate::text;
use vstd::prelude::*;

verus! {

/// How results are put out.
#[derive(Debug, Clone, Copy, PartialEq, Eq, Structural)]
pub enum OutputFormat {
    Human,
    Json,
}

/// What a scan is asked to do.
#[derive(Debug)]
pub struct ScanSettings {
    pub path: Option<FilePath>,
    pub top: usize,
    pub min_size: u64,
    pub duplicate_min_size: u64,
    pub format: OutputFormat,
    pub cross_filesystems: bool,
    pub ignore: Vec<PathRule>,
    pub protect: Vec<PathRule>,
    pub no_default_protections: bool,
    pub large_threshold: u64,
    pub old_days: u64,
    pub no_history: bool,
    pub no_ai: bool,
    pub ollama_model: String,
    pub ollama_url: String,
    pub ai_limit: usize,
}

impl Default for ScanSettings {
    /// What a scan does unless it is asked for something else.
    fn default() -> (result: Self)
        ensures
            result.path is None,
            result.top == 20,
            result.min_size == 0,
            result.duplicate_min_size == 1_048_576,
            result.format == OutputFormat::Human,
            !result.cross_filesystems,
            result.ignore@.len() == 0,
            result.protect@.len() == 0,
            !result.no_default_protections,
            result.large_threshold == 1_073_741_824,
            result.old_days == 180,
            !result.no_history,
            !result.no_ai,
            result.ollama_model@ == "qwen3:4b"@,
            result.ollama_url@ == "http://127.0.0.1:11434"@,
            result.ai_limit == 8,
    {
        ScanSettings {
            path: None,
            top: 20,
            min_size: 0,
            duplicate_min_size: 1_048_576,
            format: OutputFormat::Human,
            cross_filesystems: false,
            ignore: Vec::new(),
            protect: Vec::new(),
            no_default_protections: false,
            large_threshold: 1_073_741_824,
            old_days: 180,
            no_history: false,
            no_ai: false,
            ollama_model: "qwen3:4b".to_owned(),
            ollama_url: "http://127.0.0.1:11434".to_owned(),
            ai_limit: 8,
        }
    }
}

/// The home directory, by the values of `HOME` and `USERPROFILE`.
pub fn home_directory(home: Option<&[u8]>, profile: Option<&[u8]>) -> (result: Option<FilePath>)
    ensures
        (match result {
            Some(found) => Some(found.as_given()),
            None => None,
        }) == (match (home, profile) {
            (Some(given), _) => Some(path::given_as(given@)),
            (None, Some(given)) => Some(path::given_as(given@)),
            (None, None) => None,
        }),
{
    match home {
        Some(given) => Some(FilePath::from_bytes(given)),
        None => match profile {
            Some(given) => Some(FilePath::from_bytes(given)),
            None => None,
        },
    }
}

/// A path seen from the current directory.
pub fn absolute_path(given: &FilePath, current: &FilePath) -> (result: FilePath)
    ensures
        result.as_given() == if path::is_absolute(given@) {
            given.as_given()
        } else {
            path::resolved(current.as_given(), given.as_given())
        },
{
    if given.is_absolute() {
        given.clone()
    } else {
        current.join(given)
    }
}

fn holds_wildcard(value: &str) -> (result: bool)
    ensures
        result == (value@.contains('*') || value@.contains('?')),
{
    let characters = text::chars_of(value);
    let mut at: usize = 0;
    while at < characters.len()
        invariant
            at <= characters@.len(),
            characters@ == value@,
            forall|i: int|
                0 <= i < at ==> #[trigger] characters@[i] != '*' && characters@[i] != '?',
        decreases characters@.len() - at,
    {
        if characters[at] == '*' || characters[at] == '?' {
            assert(value@[at as int] == characters@[at as int]);
            return true;
        }
        at = at + 1;
    }
    false
}

/// The rule that a text spells: a pattern where it holds a wildcard, else a
/// path. A blank text spells none.
pub open spec fn rule_spelled(input: Seq<char>, home: Option<Seq<PartView>>) -> Option<RuleView> {
    let trimmed = text::trimmed(input);
    if trimmed.len() == 0 {
        None
    } else if trimmed.contains('*') || trimmed.contains('?') {
        Some(RuleView::Glob(trimmed))
    } else {
        Some(
            RuleView::Exact(path::expanded(path::components(text::bytes_of(trimmed)), home)),
        )
    }
}

/// Reads a rule.
pub fn parse_path_rule(input: &str, home: Option<&FilePath>) -> (result: Result<PathRule, String>)
    ensures
        ({
            let wanted = rule_spelled(
                input@,
                match home {
                    Some(known) => Some(known@),
                    None => None,
                },
            );
            match result {
                Ok(rule) => wanted == Some(rule@),
                Err(message) => wanted is None && message@ == "path rule cannot be empty"@,
            }
        }),
{
    let trimmed = text::trim(input);
    if text::chars_of(trimmed.as_str()).len() == 0 {
        return Err("path rule cannot be empty".to_owned());
    }
    if holds_wildcard(trimmed.as_str()) {
        Ok(PathRule::Glob(trimmed))
    } else {
        Ok(PathRule::Exact(FilePath::new(trimmed.as_str()).expand_home(home)))
    }
}

/// The directories of a Linux system that are protected by default.
pub open spec fn system_directories() -> Seq<Seq<char>> {
    seq![
        "/boot"@,
        "/dev"@,
        "/etc"@,
        "/lib"@,
        "/lib64"@,
        "/opt"@,
        "/proc"@,
        "/root"@,
        "/run"@,
        "/sbin"@,
        "/sys"@,
        "/usr"@,
        "/var/cache"@,
        "/var/lib"@,
        "/var/log"@,
    ]
}

/// The rules that protect a Linux system.
pub open spec fn linux_rules() -> Seq<RuleView> {
    Seq::new(
        system_directories().len(),
        |i: int| RuleView::Exact(path::components(text::bytes_of(system_directories()[i]))),
    )
}

fn linux_protected_rules() -> (result: Vec<PathRule>)
    ensures
        order::views(result@) == linux_rules(),
{
    let names: Vec<&'static str> = vec![
        "/boot",
        "/dev",
        "/etc",
        "/lib",
        "/lib64",
        "/opt",
        "/proc",
        "/root",
        "/run",
        "/sbin",
        "/sys",
        "/usr",
        "/var/cache",
        "/var/lib",
        "/var/log",
    ];
    let ghost all = order::views(names@);
    assert(all =~= system_directories());
    let mut rules: Vec<PathRule> = Vec::new();
    let mut at: usize = 0;
    while at < names.len()
        invariant
            at <= names@.len(),
            all == order::views(names@),
            all == system_directories(),
            order::views(rules@) == linux_rules().take(at as int),
        decreases names@.len() - at,
    {
        assert(all[at as int] == names@[at as int]@);
        let rule = PathRule::Exact(FilePath::new(names[at]));
        proof {
            order::lemma_views_push(rules@, rule);
            assert(linux_rules().take(at + 1) =~= linux_rules().take(at as int).push(
                linux_rules()[at as int],
            ));
        }
        rules.push(rule);
        at = at + 1;
    }
    assert(linux_rules().take(at as int) =~= linux_rules());
    rules
}

/// Paths without those that stand directly behind the same path.
pub open spec fn without_repeats(paths: Seq<Seq<PartView>>) -> Seq<Seq<PartView>>
    decreases paths.len(),
{
    if paths.len() == 0 {
        Seq::empty()
    } else {
        let kept = without_repeats(paths.drop_last());
        if kept.len() > 0 && kept.last() == paths.last() {
            kept
        } else {
            kept.push(paths.last())
        }
    }
}

pub open spec fn exact_rules(paths: Seq<Seq<PartView>>) -> Seq<RuleView> {
    Seq::new(paths.len(), |i: int| RuleView::Exact(paths[i]))
}

/// The rules that protect the operating system: fixed directories on Linux, on
/// Windows those that its environment names, each once and in order, and none
/// elsewhere.
pub open spec fn default_rules(platform: Platform, named: Seq<Seq<PartView>>) -> Seq<RuleView> {
    match platform {
        Platform::Linux => linux_rules(),
        Platform::Windows => exact_rules(
            without_repeats(order::sorted(named, scanner::path_order())),
        ),
        Platform::Other => Seq::empty(),
    }
}

/// The environment variables that name the directories of the operating system.
pub fn protected_variables(platform: Platform) -> (result: Vec<&'static str>)
    ensures
        order::views(result@) == if platform == Platform::Windows {
            seq![
                "SystemRoot"@,
                "WINDIR"@,
                "ProgramFiles"@,
                "ProgramFiles(x86)"@,
                "ProgramData"@,
            ]
        } else {
            Seq::empty()
        },
{
    let names: Vec<&'static str> = if platform == Platform::Windows {
        vec!["SystemRoot", "WINDIR", "ProgramFiles", "ProgramFiles(x86)", "ProgramData"]
    } else {
        Vec::new()
    };
    assert(order::views(names@) =~= if platform == Platform::Windows {
        seq!["SystemRoot"@, "WINDIR"@, "ProgramFiles"@, "ProgramFiles(x86)"@, "ProgramData"@]
    } else {
        Seq::empty()
    });
    names
}

fn distinct_rules(paths: Vec<FilePath>) -> (result: Vec<PathRule>)
    ensures
        order::views(result@) == exact_rules(without_repeats(order::views(paths@))),
{
    let ghost all = order::views(paths@);
    let mut rules: Vec<PathRule> = Vec::new();
    let mut last: Option<FilePath> = None;
    let mut at: usize = 0;
    assert(order::views(rules@) =~= exact_rules(without_repeats(all.take(0))));
    while at < paths.len()
        invariant
            at <= paths@.len(),
            all == order::views(paths@),
            order::views(rules@) == exact_rules(without_repeats(all.take(at as int))),
            match last {
                Some(path) => without_repeats(all.take(at as int)).len() > 0 && path@
                    == without_repeats(all.take(at as int)).last(),
                None => without_repeats(all.take(at as int)).len() == 0,
            },
        decreases paths@.len() - at,
    {
        let ghost kept = without_repeats(all.take(at as int));
        assert(all.take(at + 1).drop_last() =~= all.take(at as int));
        assert(all[at as int] == paths@[at as int]@);
        let repeated = match &last {
            Some(path) => path.same(&paths[at]),
            None => false,
        };
        if !repeated {
            let rule = PathRule::Exact(paths[at].clone());
            proof {
                order::lemma_views_push(rules@, rule);
                assert(exact_rules(kept.push(all[at as int])) =~= exact_rules(kept).push(rule@));
            }
            rules.push(rule);
            last = Some(paths[at].clone());
        }
        at = at + 1;
    }
    assert(all.take(at as int) =~= all);
    rules
}

/// The rules that protect the operating system. `named` are the directories
/// that its environment names.
pub fn default_protected_rules(platform: Platform, named: &[FilePath]) -> (result: Vec<PathRule>)
    ensures
        order::views(result@) == default_rules(platform, order::views(named@)),
{
    match platform {
        Platform::Linux => linux_protected_rules(),
        Platform::Windows => {
            proof {
                assert(order::relation::<FilePath, PathOrder>(PathOrder)
                    =~= scanner::path_order());
            }
            distinct_rules(order::sort_by_ranking(copy_paths(named), &PathOrder))
        },
        Platform::Other => {
            let none: Vec<PathRule> = Vec::new();
            assert(order::views(none@) =~= Seq::<RuleView>::empty());
            none
        },
    }
}

/// The files that a database may keep beside itself, and the database.
pub open spec fn artifacts(database: Seq<PartView>) -> Seq<Seq<PartView>> {
    match (
        path::sibling(database, "-journal"@),
        path::sibling(database, "-wal"@),
        path::sibling(database, "-shm"@),
    ) {
        (Some(journal), Some(log), Some(shared)) => seq![database, journal, log, shared],
        _ => seq![database],
    }
}

pub fn database_artifact_paths(database: &FilePath) -> (result: Vec<FilePath>)
    ensures
        order::views(result@) == artifacts(database@),
{
    let mut paths = vec![database.clone()];
    assert(order::views(paths@) =~= seq![database@]);
    match (database.sibling("-journal"), database.sibling("-wal"), database.sibling("-shm")) {
        (Some(journal), Some(log), Some(shared)) => {
            paths.push(journal);
            paths.push(log);
            paths.push(shared);
            assert(order::views(paths@) =~= seq![database@, journal@, log@, shared@]);
        },
        _ => {},
    }
    paths
}

/// The rules by which a scan passes over paths: those that were asked for, and
/// those that keep it off the database.
pub open spec fn ignored_rules(
    asked: Seq<RuleView>,
    database: Option<Seq<PartView>>,
) -> Seq<RuleView> {
    match database {
        Some(known) => asked + Seq::new(
            artifacts(known).len(),
            |i: int| RuleView::Exact(artifacts(known)[i]),
        ),
        None => asked,
    }
}

/// How many rules keep a scan off the database.
pub open spec fn automatic_rule_count(database: Option<Seq<PartView>>) -> nat {
    match database {
        Some(known) => artifacts(known).len(),
        None => 0,
    }
}

/// The rules by which a scan passes over paths, and how many of them keep it
/// off the database.
pub fn assemble_ignored_rules(asked: &[PathRule], database: Option<&FilePath>) -> (result: (
    Vec<PathRule>,
    usize,
))
    ensures
        order::views(result.0@) == ignored_rules(
            order::views(asked@),
            match database {
                Some(known) => Some(known@),
                None => None,
            },
        ),
        result.1 == automatic_rule_count(
            match database {
                Some(known) => Some(known@),
                None => None,
            },
        ),
{
    let mut rules = policy::copy_rules(asked);
    match database {
        None => (rules, 0),
        Some(known) => {
            let paths = database_artifact_paths(known);
            let ghost all = order::views(paths@);
            let ghost start = order::views(asked@);
            let ghost added = Seq::new(all.len(), |i: int| RuleView::Exact(all[i]));
            let count: usize = paths.len();
            let mut at: usize = 0;
            assert(added.take(0) =~= Seq::<RuleView>::empty());
            assert(start + added.take(0) =~= start);
            while at < paths.len()
                invariant
                    at <= paths@.len(),
                    all == order::views(paths@),
                    added == Seq::new(all.len(), |i: int| RuleView::Exact(all[i])),
                    order::views(rules@) == start + added.take(at as int),
                decreases paths@.len() - at,
            {
                assert(all[at as int] == paths@[at as int]@);
                let rule = PathRule::Exact(paths[at].clone());
                proof {
                    order::lemma_views_push(rules@, rule);
                    assert((start + added.take(at as int)).push(rule@) =~= start + added.take(
                        at + 1,
                    ));
                }
                rules.push(rule);
                at = at + 1;
            }
            assert(added.take(at as int) =~= added);
            (rules, count)
        },
    }
}

/// The rules by which paths are protected: those of the operating system,
/// unless they are switched off, and those that were asked for.
pub open spec fn protected_rules(
    no_defaults: bool,
    defaults: Seq<RuleView>,
    asked: Seq<RuleView>,
) -> Seq<RuleView> {
    (if no_defaults {
        Seq::empty()
    } else {
        defaults
    }) + asked
}

/// The rules by which paths are protected. `named` are the directories of the
/// operating system that its environment names.
pub fn assemble_protected_rules(
    no_defaults: bool,
    platform: Platform,
    named: &[FilePath],
    asked: &[PathRule],
) -> (result: Vec<PathRule>)
    ensures
        order::views(result@) == protected_rules(
            no_defaults,
            default_rules(platform, order::views(named@)),
            order::views(asked@),
        ),
{
    let mut rules: Vec<PathRule> = if no_defaults {
        Vec::new()
    } else {
        default_protected_rules(platform, named)
    };
    let ghost first = order::views(rules@);
    let ghost before = rules@;
    assert(first =~= if no_defaults {
        Seq::empty()
    } else {
        default_rules(platform, order::views(named@))
    });
    let mut more = policy::copy_rules(asked);
    let ghost added = more@;
    rules.append(&mut more);
    assert(rules@ =~= before + added);
    assert(order::views(rules@) =~= first + order::views(added));
    rules
}

/// Which folder is scanned.
#[derive(Debug)]
pub enum ScanTarget {
    Given(FilePath),
    Current,
    Ask,
}

#[verifier::ext_equal]
pub enum ScanTargetView {
    Given(GivenView),
    Current,
    Ask,
}

impl View for ScanTarget {
    type V = ScanTargetView;

    open spec fn view(&self) -> ScanTargetView {
        match self {
            ScanTarget::Given(path) => ScanTargetView::Given(path.as_given()),
            ScanTarget::Current => ScanTargetView::Current,
            ScanTarget::Ask => ScanTargetView::Ask,
        }
    }
}

/// Which folder is scanned: the one that was named, or one that is asked for
/// where someone can answer, or else the current one.
pub fn resolve_scan_path(
    requested: Option<&FilePath>,
    home: Option<&FilePath>,
    format: OutputFormat,
    input_is_terminal: bool,
    output_is_terminal: bool,
    theme: Theme,
) -> (result: ScanTarget)
    ensures
        result@ == (match requested {
            Some(given) => ScanTargetView::Given(
                path::expanded_as_given(
                    given.as_given(),
                    match home {
                        Some(known) => Some(known.as_given()),
                        None => None,
                    },
                ),
            ),
            None => if format == OutputFormat::Human && input_is_terminal && output_is_terminal
                && theme.terminal {
                ScanTargetView::Ask
            } else {
                ScanTargetView::Current
            },
        }),
{
    match requested {
        Some(given) => ScanTarget::Given(given.expand_home(home)),
        None => if format == OutputFormat::Human && input_is_terminal && output_is_terminal
            && theme.terminal {
            ScanTarget::Ask
        } else {
            ScanTarget::Current
        },
    }
}

/// How many protected copies the groups hold in all.
pub open spec fn protected_copies(groups: Seq<GroupView>) -> nat
    decreases groups.len(),
{
    if groups.len() == 0 {
        0
    } else {
        protected_copies(groups.drop_last()) + groups.last().protected_file_count as nat
    }
}

/// How many protected copies the groups hold in all, where that can be told in
/// a number.
pub fn count_protected_copies(groups: &[DuplicateGroup]) -> (result: Option<u64>)
    ensures
        match result {
            Some(count) => count == protected_copies(order::views(groups@)),
            None => protected_copies(order::views(groups@)) > u64::MAX,
        },
{
    let ghost all = order::views(groups@);
    let mut count: u64 = 0;
    let mut at: usize = 0;
    assert(all.take(0) =~= Seq::<GroupView>::empty());
    while at < groups.len()
        invariant
            at <= groups@.len(),
            all == order::views(groups@),
            count == protected_copies(all.take(at as int)),
        decreases groups@.len() - at,
    {
        assert(all.take(at + 1).drop_last() =~= all.take(at as int));
        assert(all[at as int] == groups@[at as int]@);
        match count.checked_add(groups[at].protected_file_count) {
            Some(sum) => {
                count = sum;
            },
            None => {
                proof {
                    lemma_copies_grow(all, at + 1);
                }
                return None;
            },
        }
        at = at + 1;
    }
    assert(all.take(at as int) =~= all);
    Some(count)
}

proof fn lemma_copies_grow(groups: Seq<GroupView>, count: int)
    requires
        0 <= count <= groups.len(),
    ensures
        protected_copies(groups.take(count)) <= protected_copies(groups),
    decreases groups.len() - count,
{
    if count < groups.len() {
        lemma_copies_grow(groups, count + 1);
        assert(groups.take(count + 1).drop_last() =~= groups.take(count));
    } else {
        assert(groups.take(count) =~= groups);
    }
}

/// Why an assessment came to nothing.
#[derive(Debug)]
pub enum AssessmentError {
    Relationships(RelationshipError),
    Rules(RuleError),
}

/// What is made of a scan and its duplicates.
#[derive(Debug)]
pub struct Assessment {
    pub relationships: RelationshipReport,
    pub findings: Vec<Finding>,
    pub protected_items: u64,
    pub suppressed_findings: u64,
}

/// The findings with the relationships among their evidence.
pub open spec fn supported(
    findings: Seq<FindingView>,
    connections: Seq<model::RelationshipView>,
) -> Seq<FindingView> {
    Seq::new(findings.len(), |i: int| relationships::enriched(findings[i], connections))
}

/// What is said of an assessment, which first relates the items and then
/// applies the rules: it is complete where no answer asked for a stop, and else
/// it ends as the part of it did that was told to stop or whose rules could not
/// be compiled.
pub open spec fn is_assessment(
    scan: ScanView,
    groups: Seq<GroupView>,
    options: RuleOptionsView,
    result: Result<Assessment, AssessmentError>,
    answers: Seq<bool>,
    reported: Seq<EventView>,
) -> bool {
    let related = relationships::all_reports(scan.items, groups);
    let polls = (scan.items.len() + groups.len() + 2) as int;
    match result {
        Ok(assessment) => {
            let connections = relationships::report_of(scan.items, groups);
            let count = scan.items.len() as u64;
            &&& policy::compiled(scan.root, options.rule_set()) matches Ok(protected)
            &&& progress::goes_on(answers, (polls + scan.items.len() + 1) as nat)
            &&& assessment.relationships@ == connections
            &&& order::views(assessment.findings@) == supported(
                rules::evaluation_of(scan.root, scan.items, options, protected).findings,
                connections.relationships,
            )
            &&& assessment.protected_items == rules::evaluation_of(
                scan.root,
                scan.items,
                options,
                protected,
            ).protected_items
            &&& assessment.suppressed_findings == rules::evaluation_of(
                scan.root,
                scan.items,
                options,
                protected,
            ).suppressed_findings
            &&& reported == related + rules::reports(count, scan.items.len() as int).push(
                rules::progress_event(count, count),
            )
        },
        Err(AssessmentError::Relationships(error)) => relationships::is_outcome(
            scan.items,
            groups,
            Err(error),
            answers,
            reported,
        ),
        Err(AssessmentError::Rules(error)) => {
            &&& polls <= answers.len()
            &&& progress::goes_on(answers.take(polls), polls as nat)
            &&& related.len() <= reported.len()
            &&& reported.take(related.len() as int) == related
            &&& rules::is_outcome(
                scan.root,
                scan.items,
                options,
                Err(error),
                answers.skip(polls),
                reported.skip(related.len() as int),
            )
        },
    }
}

/// Relates the items of a scan, applies the rules, and puts the relationships
/// among the evidence of what the rules found. On the way the signal says
/// whether to stop.
pub fn assess_polled<P: ProgressSink, S: StopSignal>(
    scan: &ScanResult,
    duplicates: &DuplicateReport,
    options: &RuleOptions,
    signal: &mut S,
    sink: &mut P,
) -> (result: Result<Assessment, AssessmentError>)
    ensures
        exists|answers: Seq<bool>, reported: Seq<EventView>|
            progress::polled(*old(signal), *final(signal), answers) && final(sink).received()
                == old(sink).received() + reported && #[trigger] is_assessment(
                scan@,
                duplicates@.groups,
                options@,
                result,
                answers,
                reported,
            ),
{
    let ghost first = *signal;
    let ghost earlier = sink.received();
    let ghost items = scan@.items;
    let ghost groups = duplicates@.groups;
    let detection = relationships::detect_relationships_polled(scan, duplicates, signal, sink);
    let ghost middle = *signal;
    let ghost (asked, told) = choose|answers: Seq<bool>, reported: Seq<EventView>|
        progress::polled(first, middle, answers) && sink.received() == earlier + reported
            && #[trigger] relationships::is_outcome(items, groups, detection, answers, reported);
    let connections = match detection {
        Ok(connections) => connections,
        Err(error) => {
            let result = Err(AssessmentError::Relationships(error));
            assert(is_assessment(scan@, groups, options@, result, asked, told));
            return result;
        },
    };
    let ghost between = sink.received();
    let evaluation = rules::evaluate_polled(scan, options, signal, sink);
    let ghost (more, further) = choose|answers: Seq<bool>, reported: Seq<EventView>|
        progress::polled(middle, *signal, answers) && sink.received() == between + reported
            && #[trigger] rules::is_outcome(
            scan@.root,
            items,
            options@,
            evaluation,
            answers,
            reported,
        );
    let ghost answers = asked + more;
    let ghost reported = told + further;
    proof {
        progress::lemma_polled_further(first, middle, *signal, asked, more);
        assert(sink.received() =~= earlier + reported);
        assert(answers.take(asked.len() as int) =~= asked);
        assert(answers.skip(asked.len() as int) =~= more);
        assert(reported.take(told.len() as int) =~= told);
        assert(reported.skip(told.len() as int) =~= further);
    }
    let evaluation = match evaluation {
        Ok(evaluation) => evaluation,
        Err(error) => {
            let result = Err(AssessmentError::Rules(error));
            assert(is_assessment(scan@, groups, options@, result, answers, reported));
            return result;
        },
    };
    let mut findings = evaluation.findings;
    relationships::enrich_findings_with_relationships(&mut findings, &connections);
    let result = Ok(
        Assessment {
            relationships: connections,
            findings,
            protected_items: evaluation.protected_items,
            suppressed_findings: evaluation.suppressed_findings,
        },
    );
    assert(is_assessment(scan@, groups, options@, result, answers, reported));
    result
}

/// Relates the items of a scan, applies the rules, and puts the relationships
/// among the evidence of what the rules found. Where the token is found
/// cancelled on the way, that ends it.
pub fn assess<P: ProgressSink>(
    scan: &ScanResult,
    duplicates: &DuplicateReport,
    options: &RuleOptions,
    cancellation: &CancellationToken,
    sink: &mut P,
) -> (result: Result<Assessment, AssessmentError>)
    ensures
        exists|answers: Seq<bool>, reported: Seq<EventView>|
            progress::given_by(cancellation, answers) && final(sink).received() == old(
                sink,
            ).received() + reported && #[trigger] is_assessment(
                scan@,
                duplicates@.groups,
                options@,
                result,
                answers,
                reported,
            ),
{
    let mut signal = TokenSignal::new(cancellation);
    assess_polled(scan, duplicates, options, &mut signal, sink)
}

fn copy_paths(paths: &[FilePath]) -> (result: Vec<FilePath>)
    ensures
        path::givens(result@) == path::givens(paths@),
        order::views(result@) == order::views(paths@),
{
    let ghost all = path::givens(paths@);
    let mut result: Vec<FilePath> = Vec::new();
    let mut at: usize = 0;
    while at < paths.len()
        invariant
            at <= paths@.len(),
            all == path::givens(paths@),
            result@.len() == at,
            forall|i: int| 0 <= i < at ==> (#[trigger] result@[i]).as_given() == all[i],
        decreases paths@.len() - at,
    {
        result.push(paths[at].clone());
        at = at + 1;
    }
    assert(path::givens(result@) =~= all);
    assert(order::views(result@) =~= order::views(paths@));
    result
}

/// What the rules of an analysis came to.
pub fn summarize_policy(
    scan: &ScanResult,
    assessment: &Assessment,
    asked_rules: usize,
    automatic_rules: usize,
    protected_rules: usize,
    defaults_enabled: bool,
    protected_copies: u64,
) -> (result: PolicySummary)
    ensures
        result@ == (PolicySummaryView {
            ignored_rule_count: asked_rules,
            automatic_ignore_rule_count: automatic_rules,
            protected_rule_count: protected_rules,
            default_protections_enabled: defaults_enabled,
            ignored_paths: scan@.ignored_paths,
            protected_items: assessment.protected_items,
            protected_duplicate_copies: protected_copies,
            suppressed_recommendations: assessment.suppressed_findings,
        }),
{
    PolicySummary {
        ignored_rule_count: asked_rules,
        automatic_ignore_rule_count: automatic_rules,
        protected_rule_count: protected_rules,
        default_protections_enabled: defaults_enabled,
        ignored_paths: copy_paths(scan.ignored_paths.as_slice()),
        protected_items: assessment.protected_items,
        protected_duplicate_copies: protected_copies,
        suppressed_recommendations: assessment.suppressed_findings,
    }
}

/// The event with which an analysis ends.
pub open spec fn completion(scan: ScanView) -> EventView {
    EventView {
        phase: AnalysisPhase::Complete,
        items_processed: scan.items.len() as u64,
        bytes_processed: scan.total_size_bytes,
        total_items: Some(scan.items.len() as u64),
        total_bytes: Some(scan.total_size_bytes),
        current_path: None,
    }
}

pub fn completion_event(scan: &ScanResult) -> (result: ProgressEvent)
    ensures
        result@ == completion(scan@),
{
    ProgressEvent {
        phase: AnalysisPhase::Complete,
        items_processed: scan.items.len() as u64,
        bytes_processed: scan.total_size_bytes,
        total_items: Some(scan.items.len() as u64),
        total_bytes: Some(scan.total_size_bytes),
        current_path: None,
    }
}

/// Whether a run without a command is walked through on screen.
pub fn starts_interactively(
    input_is_terminal: bool,
    output_is_terminal: bool,
    theme: Theme,
) -> (result: bool)
    ensures
        result == (input_is_terminal && output_is_terminal && theme.terminal),
{
    input_is_terminal && output_is_terminal && theme.terminal
}

/// What is told of a run that failed, and the status it ends with.
pub fn failure_notice(error: &str, cancelled: bool, interrupted: bool) -> (result: (String, u8))
    ensures
        cancelled || interrupted ==> result.0@
            == "Scan cancelled safely. No files were changed."@ && result.1 == 130,
        !cancelled && !interrupted ==> result.0@ == "SpaceMind could not complete the scan: "@
            + error@ && result.1 == 1,
{
    if cancelled || interrupted {
        ("Scan cancelled safely. No files were changed.".to_owned(), 130)
    } else {
        (text::cat2("SpaceMind could not complete the scan: ", error), 1)
    }
}

/// Rules that were asked for protect whether or not those of the operating
/// system do.
pub proof fn law_asked_protection_always_holds(
    no_defaults: bool,
    defaults: Seq<RuleView>,
    asked: Seq<RuleView>,
    rule: RuleView,
)
    requires
        asked.contains(rule),
    ensures
        protected_rules(no_defaults, defaults, asked).contains(rule),
{
    let front = if no_defaults {
        Seq::empty()
    } else {
        defaults
    };
    let at = choose|at: int| 0 <= at < asked.len() && asked[at] == rule;
    assert((front + asked)[front.len() + at] == rule);
}

/// A scan that is kept in history passes over the database itself.
pub proof fn law_the_database_is_never_scanned(asked: Seq<RuleView>, database: Seq<PartView>)
    ensures
        ignored_rules(asked, Some(database)).contains(RuleView::Exact(database)),
        forall|rule: RuleView|
            asked.contains(rule) ==> #[trigger] ignored_rules(asked, Some(database)).contains(rule),
{
    let all = ignored_rules(asked, Some(database));
    assert(all[asked.len() as int] == RuleView::Exact(artifacts(database)[0]));
    assert forall|rule: RuleView| asked.contains(rule) implies #[trigger] all.contains(rule) by {
        let at = choose|at: int| 0 <= at < asked.len() && asked[at] == rule;
        assert(all[at] == rule);
    }
}

} // verus!
