//! Path rules: exact paths and wildcard patterns, compiled for matching.

use crate::order;
use crate::path;
use crate::path::{FilePath, Part, PartView};
use crate::text;
use vstd::prelude::*;

verus! {

/// A path safety rule.
#[derive(Debug, PartialEq, Eq)]
pub enum PathRule {
    /// Matches this path and everything below it.
    Exact(FilePath),
    /// Matches paths using `*`, `?`, and `**` wildcards.
    Glob(String),
}

#[verifier::ext_equal]
pub enum RuleView {
    Exact(Seq<PartView>),
    Glob(Seq<char>),
}

impl View for PathRule {
    type V = RuleView;

    open spec fn view(&self) -> RuleView {
        match self {
            PathRule::Exact(path) => RuleView::Exact(path@),
            PathRule::Glob(pattern) => RuleView::Glob(pattern@),
        }
    }
}

impl Clone for PathRule {
    fn clone(&self) -> (result: Self)
        ensures
            result@ == self@,
    {
        match self {
            PathRule::Exact(path) => PathRule::Exact(path.clone()),
            PathRule::Glob(pattern) => PathRule::Glob(pattern.clone()),
        }
    }
}

/// Copies of some rules.
pub fn copy_rules(rules: &[PathRule]) -> (result: Vec<PathRule>)
    ensures
        order::views(result@) == order::views(rules@),
{
    let mut result: Vec<PathRule> = Vec::new();
    let mut at: usize = 0;
    assert(order::views(result@) =~= order::views(rules@).take(0));
    while at < rules.len()
        invariant
            at <= rules.len(),
            order::views(result@) == order::views(rules@).take(at as int),
        decreases rules.len() - at,
    {
        let rule = rules[at].clone();
        proof {
            order::lemma_views_push(result@, rule);
            assert(order::views(rules@).take(at + 1) =~= order::views(rules@).take(at as int).push(
                rule@,
            ));
        }
        result.push(rule);
        at = at + 1;
    }
    assert(order::views(rules@).take(at as int) =~= order::views(rules@));
    result
}

/// Why a wildcard pattern was refused.
#[derive(Debug, PartialEq, Eq)]
pub struct PathRuleError {
    pattern: String,
    message: &'static str,
}

#[verifier::ext_equal]
pub struct RuleErrorView {
    pub pattern: Seq<char>,
    pub message: Seq<char>,
}

impl View for PathRuleError {
    type V = RuleErrorView;

    closed spec fn view(&self) -> RuleErrorView {
        RuleErrorView { pattern: self.pattern@, message: self.message@ }
    }
}

/// What `{:?}` makes of a string: the text in quotes with escapes.
pub uninterp spec fn quoted(characters: Seq<char>) -> Seq<char>;

/// `std::fmt` with `{:?}` on a string; how it escapes is left to the name.
#[verifier::external_body]
pub(crate) fn quote(value: &str) -> (result: String)
    ensures
        result@ == quoted(value@),
{
    format!("{value:?}")
}

impl PathRuleError {
    fn new(pattern: String, message: &'static str) -> (result: Self)
        ensures
            result@ == (RuleErrorView { pattern: pattern@, message: message@ }),
    {
        PathRuleError { pattern, message }
    }

    /// The error as a sentence.
    pub fn describe(&self) -> (result: String)
        ensures
            result@ == "invalid path pattern "@ + quoted(self@.pattern) + ": "@ + self@.message,
    {
        text::cat4("invalid path pattern ", quote(self.pattern.as_str()).as_str(), ": ", self.message)
    }
}

/// The operating system that paths belong to, as far as rules depend on it.
#[derive(Debug, Clone, Copy, PartialEq, Eq, Structural)]
pub enum Platform {
    Linux,
    Windows,
    Other,
}

impl Platform {
    /// Whether rules match names whatever the case of their letters.
    pub fn ignores_case(self) -> (result: bool)
        ensures
            result == (self == Platform::Windows),
    {
        self == Platform::Windows
    }
}

/// What `str::to_lowercase` makes of some text.
pub uninterp spec fn lower_text(characters: Seq<char>) -> Seq<char>;

/// `str::to_lowercase`: the text in lower case.
#[verifier::external_body]
fn lower(value: &str) -> (result: String)
    ensures
        result@ == lower_text(value@),
{
    value.to_lowercase()
}

/// Text as it is compared.
pub open spec fn cased(text: Seq<char>, ignore_case: bool) -> Seq<char> {
    if ignore_case {
        lower_text(text)
    } else {
        text
    }
}

fn normalize_case(value: String, ignore_case: bool) -> (result: String)
    ensures
        result@ == cased(value@, ignore_case),
{
    if ignore_case {
        lower(value.as_str())
    } else {
        value
    }
}

/// Whether a pattern of one component matches a name: `*` stands for any run
/// of characters, `?` for one, and any other character for itself.
pub open spec fn wildcard_matches(pattern: Seq<char>, name: Seq<char>) -> bool
    decreases pattern.len() + name.len(),
{
    if pattern.len() == 0 {
        name.len() == 0
    } else if pattern.last() == '*' {
        wildcard_matches(pattern.drop_last(), name) || (name.len() > 0 && wildcard_matches(
            pattern,
            name.drop_last(),
        ))
    } else {
        name.len() > 0 && (pattern.last() == '?' || pattern.last() == name.last())
            && wildcard_matches(pattern.drop_last(), name.drop_last())
    }
}

/// Whether a list of component patterns matches a list of names: `**` stands
/// for any number of them.
pub open spec fn segments_match(pattern: Seq<Seq<char>>, names: Seq<Seq<char>>) -> bool
    decreases pattern.len() + names.len(),
{
    if pattern.len() == 0 {
        names.len() == 0
    } else if pattern[0] == "**"@ {
        segments_match(pattern.drop_first(), names) || (names.len() > 0 && segments_match(
            pattern,
            names.drop_first(),
        ))
    } else {
        names.len() > 0 && wildcard_matches(pattern[0], names[0]) && segments_match(
            pattern.drop_first(),
            names.drop_first(),
        )
    }
}

/// A compiled wildcard pattern.
#[verifier::ext_equal]
pub struct GlobView {
    pub segments: Seq<Seq<char>>,
    /// Whether the pattern starts at the scan root.
    pub anchored: bool,
}

impl GlobView {
    pub open spec fn matches(self, names: Seq<Seq<char>>) -> bool {
        if self.anchored {
            segments_match(self.segments, names)
        } else {
            exists|start: int|
                0 <= start <= names.len() && #[trigger] segments_match(
                    self.segments,
                    names.skip(start),
                )
        }
    }
}

/// The text with every backslash made a slash.
pub open spec fn slashed(pattern: Seq<char>) -> Seq<char> {
    Seq::new(
        pattern.len(),
        |i: int|
            if pattern[i] == '\\' {
                '/'
            } else {
                pattern[i]
            },
    )
}

/// The text without the `./` in front of it, however often it stands there.
pub open spec fn without_dot_slash(pattern: Seq<char>) -> Seq<char>
    decreases pattern.len(),
{
    if pattern.len() >= 2 && pattern[0] == '.' && pattern[1] == '/' {
        without_dot_slash(pattern.skip(2))
    } else {
        pattern
    }
}

/// The pieces that are not empty.
pub open spec fn filled(pieces: Seq<Seq<char>>) -> Seq<Seq<char>>
    decreases pieces.len(),
{
    if pieces.len() == 0 {
        Seq::empty()
    } else if pieces.last().len() == 0 {
        filled(pieces.drop_last())
    } else {
        filled(pieces.drop_last()).push(pieces.last())
    }
}

/// The component patterns of a wildcard pattern.
pub open spec fn pattern_segments(pattern: Seq<char>) -> Seq<Seq<char>> {
    filled(text::split(without_dot_slash(slashed(text::trimmed(pattern))), '/'))
}

pub open spec fn is_anchored(pattern: Seq<char>) -> bool {
    let plain = slashed(text::trimmed(pattern));
    (plain.len() > 0 && plain[0] == '/') || (plain.len() > 1 && plain[0] == '.' && plain[1] == '/')
}

/// The component patterns of a wildcard pattern, as they are compared.
pub open spec fn cased_segments(pattern: Seq<char>, ignore_case: bool) -> Seq<Seq<char>> {
    Seq::new(
        pattern_segments(pattern).len(),
        |i: int| cased(pattern_segments(pattern)[i], ignore_case),
    )
}

/// A wildcard pattern compiled, or why it cannot be.
pub open spec fn compiled_glob(pattern: Seq<char>, ignore_case: bool) -> Result<
    GlobView,
    RuleErrorView,
> {
    let trimmed = text::trimmed(pattern);
    if trimmed.len() == 0 {
        Err(RuleErrorView { pattern: trimmed, message: "pattern cannot be empty"@ })
    } else if pattern_segments(pattern).len() == 0 {
        Err(RuleErrorView { pattern: trimmed, message: "pattern must identify a path"@ })
    } else {
        Ok(
            GlobView {
                segments: cased_segments(pattern, ignore_case),
                anchored: is_anchored(pattern),
            },
        )
    }
}

#[derive(Debug)]
struct GlobPattern {
    segments: Vec<String>,
    anchored: bool,
}

impl View for GlobPattern {
    type V = GlobView;

    closed spec fn view(&self) -> GlobView {
        GlobView { segments: order::views(self.segments@), anchored: self.anchored }
    }
}

fn wildcard_segment_matches(pattern: &[char], name: &[char]) -> (result: bool)
    ensures
        result == wildcard_matches(pattern@, name@),
{
    let width: usize = name.len();
    let mut row: Vec<bool> = Vec::new();
    row.push(true);
    let mut filled_in: usize = 0;
    while filled_in < width
        invariant
            width == name@.len(),
            filled_in <= width,
            row@.len() == filled_in + 1,
            forall|j: int|
                0 <= j <= filled_in ==> #[trigger] row@[j] == wildcard_matches(
                    pattern@.take(0),
                    name@.take(j),
                ),
        decreases width - filled_in,
    {
        row.push(false);
        filled_in = filled_in + 1;
    }
    let mut at: usize = 0;
    while at < pattern.len()
        invariant
            at <= pattern.len(),
            width == name@.len(),
            row@.len() == width + 1,
            forall|j: int|
                0 <= j <= width ==> #[trigger] row@[j] == wildcard_matches(
                    pattern@.take(at as int),
                    name@.take(j),
                ),
        decreases pattern.len() - at,
    {
        let character: char = pattern[at];
        let ghost longer = pattern@.take(at + 1);
        assert(longer.drop_last() =~= pattern@.take(at as int));
        let mut next: Vec<bool> = Vec::new();
        next.push(character == '*' && row[0]);
        let mut column: usize = 0;
        assert(next@[0] == wildcard_matches(longer, name@.take(0)));
        while column < width
            invariant
                column <= width,
                width == name@.len(),
                at < pattern.len(),
                character == pattern@[at as int],
                longer == pattern@.take(at + 1),
                longer.drop_last() == pattern@.take(at as int),
                row@.len() == width + 1,
                next@.len() == column + 1,
                forall|j: int|
                    0 <= j <= width ==> #[trigger] row@[j] == wildcard_matches(
                        pattern@.take(at as int),
                        name@.take(j),
                    ),
                forall|j: int|
                    0 <= j <= column ==> #[trigger] next@[j] == wildcard_matches(
                        longer,
                        name@.take(j),
                    ),
            decreases width - column,
        {
            assert(name@.take(column + 1).drop_last() =~= name@.take(column as int));
            assert(row@[column as int] == wildcard_matches(
                pattern@.take(at as int),
                name@.take(column as int),
            ));
            assert(row@[column + 1] == wildcard_matches(
                pattern@.take(at as int),
                name@.take(column + 1),
            ));
            let value = if character == '*' {
                row[column + 1] || next[column]
            } else if character == '?' {
                row[column]
            } else {
                character == name[column] && row[column]
            };
            next.push(value);
            column = column + 1;
        }
        row = next;
        at = at + 1;
    }
    assert(pattern@.take(at as int) =~= pattern@);
    assert(name@.take(width as int) =~= name@);
    row[width]
}

fn segments_match_from(
    pattern: &Vec<String>,
    from: usize,
    names: &Vec<String>,
    start: usize,
    end: usize,
) -> (result: bool)
    requires
        from <= pattern@.len(),
        start <= end <= names@.len(),
    ensures
        result == segments_match(
            order::views(pattern@).skip(from as int),
            order::views(names@).subrange(start as int, end as int),
        ),
    decreases pattern@.len() - from + (end - start),
{
    let ghost wanted = order::views(pattern@).skip(from as int);
    let ghost given = order::views(names@).subrange(start as int, end as int);
    if from == pattern.len() {
        return start == end;
    }
    assert(wanted.drop_first() =~= order::views(pattern@).skip(from + 1));
    assert(wanted[0] == pattern@[from as int]@);
    if start < end {
        assert(given.drop_first() =~= order::views(names@).subrange(start + 1, end as int));
        assert(given[0] == names@[start as int]@);
    }
    if text::same_text(pattern[from].as_str(), "**") {
        if segments_match_from(pattern, from + 1, names, start, end) {
            return true;
        }
        return start < end && segments_match_from(pattern, from, names, start + 1, end);
    }
    if start == end {
        return false;
    }
    let segment = text::chars_of(pattern[from].as_str());
    let name = text::chars_of(names[start].as_str());
    wildcard_segment_matches(segment.as_slice(), name.as_slice()) && segments_match_from(
        pattern,
        from + 1,
        names,
        start + 1,
        end,
    )
}

impl GlobPattern {
    fn parse(pattern: &str, ignore_case: bool) -> (result: Result<Self, PathRuleError>)
        ensures
            match result {
                Ok(glob) => compiled_glob(pattern@, ignore_case) == Ok::<GlobView, RuleErrorView>(
                    glob@,
                ),
                Err(error) => compiled_glob(pattern@, ignore_case) == Err::<
                    GlobView,
                    RuleErrorView,
                >(error@),
            },
    {
        let trimmed = text::trim(pattern);
        let characters = text::chars_of(trimmed.as_str());
        if characters.len() == 0 {
            return Err(PathRuleError::new(trimmed, "pattern cannot be empty"));
        }
        let mut plain: Vec<char> = Vec::new();
        let mut at: usize = 0;
        while at < characters.len()
            invariant
                at <= characters.len(),
                plain@ == slashed(characters@).take(at as int),
            decreases characters.len() - at,
        {
            let character: char = if characters[at] == '\\' {
                '/'
            } else {
                characters[at]
            };
            plain.push(character);
            assert(slashed(characters@).take(at + 1) =~= slashed(characters@).take(at as int).push(
                character,
            ));
            at = at + 1;
        }
        assert(plain@ =~= slashed(characters@));
        let anchored = plain[0] == '/' || (plain.len() > 1 && plain[0] == '.' && plain[1] == '/');
        let mut from: usize = 0;
        assert(plain@.skip(0) =~= plain@);
        while plain.len() - from >= 2 && plain[from] == '.' && plain[from + 1] == '/'
            invariant
                from <= plain.len(),
                without_dot_slash(plain@) == without_dot_slash(plain@.skip(from as int)),
            decreases plain.len() - from,
        {
            assert(plain@.skip(from as int).skip(2) =~= plain@.skip(from + 2));
            from = from + 2;
        }
        let ghost body = plain@.skip(from as int);
        assert(without_dot_slash(plain@) == body);
        let segments = split_filled(plain.as_slice(), from);
        if segments.len() == 0 {
            return Err(PathRuleError::new(trimmed, "pattern must identify a path"));
        }
        let segments = normalize_all(segments, ignore_case);
        assert(order::views(segments@) =~= cased_segments(pattern@, ignore_case));
        Ok(GlobPattern { segments, anchored })
    }

    /// Whether the pattern matches the first `count` names.
    fn matches(&self, names: &Vec<String>, count: usize) -> (result: bool)
        requires
            count <= names@.len(),
        ensures
            result == self@.matches(order::views(names@).take(count as int)),
    {
        let ghost given = order::views(names@).take(count as int);
        let ghost wanted = self@.segments;
        assert(wanted.skip(0) =~= wanted);
        if self.anchored {
            assert(order::views(names@).subrange(0, count as int) =~= given);
            return segments_match_from(&self.segments, 0, names, 0, count);
        }
        let mut start: usize = 0;
        while start <= count
            invariant
                start <= count + 1,
                count <= names@.len(),
                !self.anchored,
                given == order::views(names@).take(count as int),
                wanted == self@.segments,
                wanted.skip(0) == wanted,
                forall|s: int|
                    0 <= s < start ==> !(#[trigger] segments_match(wanted, given.skip(s))),
            decreases count + 1 - start,
        {
            assert(order::views(names@).subrange(start as int, count as int) =~= given.skip(
                start as int,
            ));
            if segments_match_from(&self.segments, 0, names, start, count) {
                return true;
            }
            if start == count {
                return false;
            }
            start = start + 1;
        }
        false
    }
}

/// Texts as they are compared.
fn normalize_all(texts: Vec<String>, ignore_case: bool) -> (result: Vec<String>)
    ensures
        order::views(result@) == Seq::new(
            texts@.len(),
            |i: int| cased(texts@[i]@, ignore_case),
        ),
{
    let ghost source = texts@;
    let ghost whole = Seq::new(source.len(), |i: int| cased(source[i]@, ignore_case));
    let mut result: Vec<String> = Vec::new();
    assert(order::views(result@) =~= whole.take(0));
    for one in it: texts
        invariant
            it.seq() == source,
            whole == Seq::new(source.len(), |i: int| cased(source[i]@, ignore_case)),
            order::views(result@) == whole.take(it.index()),
    {
        let text = normalize_case(one, ignore_case);
        proof {
            order::lemma_views_push(result@, text);
            assert(whole.take(it.index() + 1) =~= whole.take(it.index()).push(
                whole[it.index()],
            ));
        }
        result.push(text);
    }
    assert(whole.take(source.len() as int) =~= whole);
    result
}

/// The filled pieces between the slashes behind a position.
fn split_filled(characters: &[char], from: usize) -> (result: Vec<String>)
    requires
        from <= characters@.len(),
    ensures
        order::views(result@) == filled(text::split(characters@.skip(from as int), '/')),
{
    let ghost body = characters@.skip(from as int);
    let mut result: Vec<String> = Vec::new();
    let mut piece = String::new();
    let mut piece_filled = false;
    let mut at: usize = from;
    let ghost mut done: Seq<Seq<char>> = Seq::empty();
    proof {
        assert(body.take(0) =~= Seq::<char>::empty());
        assert(text::split(body.take(0), '/') =~= done.push(piece@)) by {
            assert(piece@ =~= Seq::<char>::empty());
        }
        assert(order::views(result@) =~= filled(done));
    }
    while at < characters.len()
        invariant
            from <= at <= characters.len(),
            body == characters@.skip(from as int),
            text::split(body.take(at - from), '/') == done.push(piece@),
            order::views(result@) == filled(done),
            piece_filled == (piece@.len() > 0),
        decreases characters.len() - at,
    {
        let ghost before = text::split(body.take(at - from), '/');
        let ghost part = piece@;
        assert(body.take(at - from + 1).drop_last() =~= body.take(at - from));
        assert(before.last() == part);
        assert(before.drop_last() =~= done);
        if characters[at] == '/' {
            proof {
                assert(done.push(part).drop_last() =~= done);
                assert(before.push(Seq::<char>::empty()) =~= done.push(part).push(
                    Seq::<char>::empty(),
                ));
            }
            if piece_filled {
                proof {
                    order::lemma_views_push(result@, piece);
                }
                result.push(piece);
            }
            piece = String::new();
            piece_filled = false;
            proof {
                assert(piece@ =~= Seq::<char>::empty());
                done = done.push(part);
            }
        } else {
            piece.push(characters[at]);
            piece_filled = true;
            assert(before.update(before.len() - 1, part.push(characters@[at as int])) =~= done.push(
                piece@,
            ));
        }
        at = at + 1;
    }
    assert(body.take(at - from) =~= body);
    proof {
        assert(done.push(piece@).drop_last() =~= done);
    }
    if piece_filled {
        proof {
            order::lemma_views_push(result@, piece);
        }
        result.push(piece);
    }
    result
}

/// A compiled path policy.
#[verifier::ext_equal]
pub struct PolicyView {
    pub root: Seq<PartView>,
    pub exact: Seq<Seq<PartView>>,
    pub globs: Seq<GlobView>,
    pub ignore_case: bool,
}

/// The names among some components, as text that is compared.
pub open spec fn names_of(parts: Seq<PartView>, ignore_case: bool) -> Seq<Seq<char>>
    decreases parts.len(),
{
    if parts.len() == 0 {
        Seq::empty()
    } else {
        match parts.last() {
            PartView::Name(name) => names_of(parts.drop_last(), ignore_case).push(
                cased(text::lossy_text(name), ignore_case),
            ),
            _ => names_of(parts.drop_last(), ignore_case),
        }
    }
}

/// A component as text.
pub open spec fn part_text(part: PartView) -> Seq<char> {
    match part {
        PartView::Root => "/"@,
        PartView::Current => "."@,
        PartView::Parent => ".."@,
        PartView::Name(name) => text::lossy_text(name),
    }
}

/// Components as text in lower case.
pub open spec fn folded(parts: Seq<PartView>) -> Seq<Seq<char>> {
    Seq::new(parts.len(), |i: int| lower_text(part_text(parts[i])))
}

/// Whether a path is another or lies below it, as paths are compared.
pub open spec fn covered(path: Seq<PartView>, exact: Seq<PartView>, ignore_case: bool) -> bool {
    if ignore_case {
        exact.len() <= path.len() && folded(path).take(exact.len() as int) == folded(exact)
    } else {
        path::within(path, exact)
    }
}

impl PolicyView {
    /// Whether one of the first `count` names of a path below the root is
    /// matched by a wildcard pattern.
    pub open spec fn glob_matches(self, names: Seq<Seq<char>>) -> bool {
        exists|count: int, glob: int|
            0 <= count <= names.len() && 0 <= glob < self.globs.len()
                && #[trigger] self.globs[glob].matches(#[trigger] names.take(count))
    }

    /// Whether a path, or one that it lies below, is matched by a rule.
    pub open spec fn matches(self, given: Seq<PartView>) -> bool {
        let plain = path::normalized(given);
        ||| exists|i: int|
            0 <= i < self.exact.len() && covered(plain, #[trigger] self.exact[i], self.ignore_case)
        ||| path::within(plain, self.root) && self.glob_matches(
            names_of(plain.skip(self.root.len() as int), self.ignore_case),
        )
    }
}

/// An exact rule's path: taken from the root where it is relative.
pub open spec fn anchored_path(root: Seq<PartView>, given: Seq<PartView>) -> Seq<PartView> {
    path::normalized(
        if path::is_absolute(given) {
            given
        } else {
            path::joined(root, given)
        },
    )
}

/// Rules compiled for a normalised root, or the error of the first pattern
/// that cannot be.
pub open spec fn compiled_rules(
    root: Seq<PartView>,
    rules: Seq<RuleView>,
    ignore_case: bool,
) -> Result<PolicyView, RuleErrorView>
    decreases rules.len(),
{
    if rules.len() == 0 {
        Ok(PolicyView { root, exact: Seq::empty(), globs: Seq::empty(), ignore_case })
    } else {
        match compiled_rules(root, rules.drop_last(), ignore_case) {
            Err(error) => Err(error),
            Ok(policy) => match rules.last() {
                RuleView::Exact(given) => Ok(
                    PolicyView {
                        exact: policy.exact.push(anchored_path(root, given)),
                        ..policy
                    },
                ),
                RuleView::Glob(pattern) => match compiled_glob(pattern, ignore_case) {
                    Err(error) => Err(error),
                    Ok(glob) => Ok(PolicyView { globs: policy.globs.push(glob), ..policy }),
                },
            },
        }
    }
}

/// Some rules, and whether they match names whatever the case of their letters.
#[verifier::ext_equal]
pub struct RuleSetView {
    pub rules: Seq<RuleView>,
    pub ignore_case: bool,
}

pub open spec fn rule_set(rules: Seq<RuleView>, ignore_case: bool) -> RuleSetView {
    RuleSetView { rules, ignore_case }
}

/// Rules compiled for a root, or the error of the first pattern that cannot be.
pub open spec fn compiled(root: Seq<PartView>, set: RuleSetView) -> Result<
    PolicyView,
    RuleErrorView,
> {
    compiled_rules(path::normalized(root), set.rules, set.ignore_case)
}

/// Compiled path policy used consistently by scanning and recommendation code.
#[derive(Debug)]
pub struct PathMatcher {
    root: FilePath,
    exact_paths: Vec<FilePath>,
    globs: Vec<GlobPattern>,
    ignore_case: bool,
}

impl View for PathMatcher {
    type V = PolicyView;

    closed spec fn view(&self) -> PolicyView {
        PolicyView {
            root: self.root@,
            exact: order::views(self.exact_paths@),
            globs: order::views(self.globs@),
            ignore_case: self.ignore_case,
        }
    }
}

proof fn lemma_compiled_error(
    root: Seq<PartView>,
    rules: Seq<RuleView>,
    ignore_case: bool,
    count: int,
)
    requires
        0 <= count <= rules.len(),
        compiled_rules(root, rules.take(count), ignore_case) is Err,
    ensures
        compiled_rules(root, rules, ignore_case) == compiled_rules(
            root,
            rules.take(count),
            ignore_case,
        ),
    decreases rules.len() - count,
{
    if count == rules.len() {
        assert(rules.take(count) =~= rules);
    } else {
        assert(rules.take(count + 1).drop_last() =~= rules.take(count));
        lemma_compiled_error(root, rules, ignore_case, count + 1);
    }
}

/// The names of some components as text.
fn component_names(parts: &Vec<Part>, ignore_case: bool) -> (result: Vec<String>)
    ensures
        order::views(result@) == names_of(order::views(parts@), ignore_case),
{
    let ghost all = order::views(parts@);
    let mut names: Vec<String> = Vec::new();
    let mut at: usize = 0;
    assert(order::views(names@) =~= names_of(all.take(0), ignore_case));
    while at < parts.len()
        invariant
            at <= parts.len(),
            all == order::views(parts@),
            order::views(names@) == names_of(all.take(at as int), ignore_case),
        decreases parts.len() - at,
    {
        assert(all.take(at + 1).drop_last() =~= all.take(at as int));
        match &parts[at] {
            Part::Name(name) => {
                let shown = normalize_case(text::decode_lossy(name.as_slice()), ignore_case);
                proof {
                    order::lemma_views_push(names@, shown);
                }
                names.push(shown);
            },
            _ => {},
        }
        at = at + 1;
    }
    assert(all.take(at as int) =~= all);
    names
}

/// Components as text in lower case.
fn fold_parts(given: &FilePath) -> (result: Vec<String>)
    ensures
        order::views(result@) == folded(given@),
{
    let mut result: Vec<String> = Vec::new();
    let mut at: usize = 0;
    assert(order::views(result@) =~= folded(given@).take(0));
    while at < given.len()
        invariant
            at <= given@.len(),
            order::views(result@) == folded(given@).take(at as int),
        decreases given@.len() - at,
    {
        let text = match given.part(at) {
            Part::Root => lower("/"),
            Part::Current => lower("."),
            Part::Parent => lower(".."),
            Part::Name(name) => lower(text::decode_lossy(name.as_slice()).as_str()),
        };
        proof {
            order::lemma_views_push(result@, text);
            assert(folded(given@).take(at + 1) =~= folded(given@).take(at as int).push(
                folded(given@)[at as int],
            ));
        }
        result.push(text);
        at = at + 1;
    }
    assert(folded(given@).take(at as int) =~= folded(given@));
    result
}

fn exact_path_matches(given: &FilePath, exact: &FilePath, ignore_case: bool) -> (result: bool)
    ensures
        result == covered(given@, exact@, ignore_case),
{
    if !ignore_case {
        return given.starts_with(exact);
    }
    let names = fold_parts(given);
    let wanted = fold_parts(exact);
    assert(folded(given@).len() == given@.len() && folded(exact@).len() == exact@.len());
    if wanted.len() > names.len() {
        return false;
    }
    let mut at: usize = 0;
    while at < wanted.len()
        invariant
            at <= wanted@.len() <= names@.len(),
            wanted@.len() == exact@.len(),
            names@.len() == given@.len(),
            order::views(names@) == folded(given@),
            order::views(wanted@) == folded(exact@),
            forall|i: int| 0 <= i < at ==> folded(given@)[i] == #[trigger] folded(exact@)[i],
        decreases wanted@.len() - at,
    {
        assert(order::views(names@)[at as int] == names@[at as int]@);
        assert(order::views(wanted@)[at as int] == wanted@[at as int]@);
        if !text::same_text(names[at].as_str(), wanted[at].as_str()) {
            assert(folded(given@).take(exact@.len() as int)[at as int] != folded(
                exact@,
            )[at as int]);
            return false;
        }
        at = at + 1;
    }
    assert(folded(given@).take(exact@.len() as int) =~= folded(exact@));
    true
}

impl PathMatcher {
    /// Compiles rules for a root. Relative exact rules are taken from it.
    pub fn new(root: &FilePath, rules: &[PathRule]) -> (result: Result<Self, PathRuleError>)
        ensures
            match result {
                Ok(matcher) => compiled(root@, rule_set(order::views(rules@), false)) == Ok::<
                    PolicyView,
                    RuleErrorView,
                >(matcher@),
                Err(error) => compiled(root@, rule_set(order::views(rules@), false)) == Err::<
                    PolicyView,
                    RuleErrorView,
                >(error@),
            },
    {
        PathMatcher::with_case(root, rules, false)
    }

    /// Compiles rules for a root, with or without regard to the case of letters.
    pub fn with_case(root: &FilePath, rules: &[PathRule], ignore_case: bool) -> (result: Result<
        Self,
        PathRuleError,
    >)
        ensures
            match result {
                Ok(matcher) => compiled(root@, rule_set(order::views(rules@), ignore_case)) == Ok::<
                    PolicyView,
                    RuleErrorView,
                >(matcher@),
                Err(error) => compiled(root@, rule_set(order::views(rules@), ignore_case)) == Err::<
                    PolicyView,
                    RuleErrorView,
                >(error@),
            },
    {
        let base = root.normalize();
        let ghost all = order::views(rules@);
        let mut exact_paths: Vec<FilePath> = Vec::new();
        let mut globs: Vec<GlobPattern> = Vec::new();
        let mut at: usize = 0;
        assert(order::views(exact_paths@) =~= Seq::<Seq<PartView>>::empty());
        assert(order::views(globs@) =~= Seq::<GlobView>::empty());
        while at < rules.len()
            invariant
                at <= rules.len(),
                all == order::views(rules@),
                base@ == path::normalized(root@),
                compiled_rules(base@, all.take(at as int), ignore_case) == Ok::<
                    PolicyView,
                    RuleErrorView,
                >(
                    PolicyView {
                        root: base@,
                        exact: order::views(exact_paths@),
                        globs: order::views(globs@),
                        ignore_case,
                    },
                ),
            decreases rules.len() - at,
        {
            assert(all.take(at + 1).drop_last() =~= all.take(at as int));
            match &rules[at] {
                PathRule::Exact(given) => {
                    let whole = if given.is_absolute() {
                        given.clone()
                    } else {
                        base.join(given)
                    };
                    let plain = whole.normalize();
                    proof {
                        order::lemma_views_push(exact_paths@, plain);
                    }
                    exact_paths.push(plain);
                },
                PathRule::Glob(pattern) => match GlobPattern::parse(pattern.as_str(), ignore_case) {
                    Ok(glob) => {
                        proof {
                            order::lemma_views_push(globs@, glob);
                        }
                        globs.push(glob);
                    },
                    Err(error) => {
                        proof {
                            lemma_compiled_error(base@, all, ignore_case, at + 1);
                        }
                        return Err(error);
                    },
                },
            }
            at = at + 1;
        }
        assert(all.take(at as int) =~= all);
        Ok(PathMatcher { root: base, exact_paths, globs, ignore_case })
    }

    /// Returns true for a matched path and all descendants of a matched path.
    pub fn is_match(&self, given: &FilePath) -> (result: bool)
        ensures
            result == self@.matches(given@),
    {
        let plain = given.normalize();
        let mut at: usize = 0;
        while at < self.exact_paths.len()
            invariant
                at <= self.exact_paths.len(),
                plain@ == path::normalized(given@),
                forall|i: int|
                    0 <= i < at ==> !covered(
                        plain@,
                        #[trigger] self@.exact[i],
                        self@.ignore_case,
                    ),
            decreases self.exact_paths.len() - at,
        {
            assert(self@.exact[at as int] == self.exact_paths@[at as int]@);
            if exact_path_matches(&plain, &self.exact_paths[at], self.ignore_case) {
                return true;
            }
            at = at + 1;
        }
        match plain.strip_prefix(&self.root) {
            None => false,
            Some(relative) => {
                let names = component_names(&relative, self.ignore_case);
                self.matches_names(&names)
            },
        }
    }

    fn matches_names(&self, names: &Vec<String>) -> (result: bool)
        ensures
            result == self@.glob_matches(order::views(names@)),
    {
        let ghost given = order::views(names@);
        let mut count: usize = 0;
        let total: usize = names.len();
        loop
            invariant
                count <= total == names@.len(),
                given == order::views(names@),
                forall|c: int, g: int|
                    0 <= c < count && 0 <= g < self@.globs.len() ==> !(
                    #[trigger] self@.globs[g].matches(#[trigger] given.take(c))),
            decreases total - count,
        {
            let mut glob: usize = 0;
            while glob < self.globs.len()
                invariant
                    glob <= self.globs.len(),
                    count <= total == names@.len(),
                    given == order::views(names@),
                    forall|g: int|
                        0 <= g < glob ==> !(#[trigger] self@.globs[g].matches(
                            given.take(count as int),
                        )),
                decreases self.globs.len() - glob,
            {
                assert(self@.globs[glob as int] == self.globs@[glob as int]@);
                if self.globs[glob].matches(names, count) {
                    return true;
                }
                glob = glob + 1;
            }
            if count == total {
                return false;
            }
            count = count + 1;
        }
    }
}

proof fn lemma_names_of_prefix(parts: Seq<PartView>, ignore_case: bool, count: int)
    requires
        0 <= count <= parts.len(),
    ensures
        names_of(parts.take(count), ignore_case).len() <= names_of(parts, ignore_case).len(),
        names_of(parts, ignore_case).take(names_of(parts.take(count), ignore_case).len() as int) == names_of(
            parts.take(count),
            ignore_case,
        ),
    decreases parts.len() - count,
{
    if count == parts.len() {
        assert(parts.take(count) =~= parts);
        assert(names_of(parts, ignore_case).take(names_of(parts, ignore_case).len() as int) =~= names_of(parts, ignore_case));
    } else {
        let longer = parts.take(count + 1);
        assert(longer.drop_last() =~= parts.take(count));
        lemma_names_of_prefix(parts, ignore_case, count + 1);
        let short = names_of(parts.take(count), ignore_case);
        assert(names_of(longer, ignore_case).take(short.len() as int) =~= short);
        assert(names_of(parts, ignore_case).take(short.len() as int) =~= names_of(parts, ignore_case).take(
            names_of(longer, ignore_case).len() as int,
        ).take(short.len() as int));
    }
}

/// What a policy matches it matches with everything below it.
pub proof fn law_descendants_of_a_match_match(
    policy: PolicyView,
    given: Seq<PartView>,
    descendant: Seq<PartView>,
)
    requires
        policy.matches(given),
        path::within(path::normalized(descendant), path::normalized(given)),
    ensures
        policy.matches(descendant),
{
    let upper = path::normalized(given);
    let lower = path::normalized(descendant);
    if exists|i: int|
        0 <= i < policy.exact.len() && covered(
            upper,
            #[trigger] policy.exact[i],
            policy.ignore_case,
        ) {
        let i = choose|i: int|
            0 <= i < policy.exact.len() && covered(
                upper,
                #[trigger] policy.exact[i],
                policy.ignore_case,
            );
        let exact = policy.exact[i];
        assert(lower.take(exact.len() as int) =~= lower.take(upper.len() as int).take(
            exact.len() as int,
        ));
        assert(folded(upper) =~= folded(lower).take(upper.len() as int)) by {
            assert forall|k: int| 0 <= k < upper.len() implies upper[k] == lower[k] by {
                assert(lower.take(upper.len() as int)[k] == lower[k]);
            }
        }
        assert(folded(lower).take(exact.len() as int) =~= folded(lower).take(
            upper.len() as int,
        ).take(exact.len() as int));
        assert(covered(lower, policy.exact[i], policy.ignore_case));
    } else {
        let root = policy.root;
        assert(lower.take(root.len() as int) =~= lower.take(upper.len() as int).take(
            root.len() as int,
        ));
        let above = upper.skip(root.len() as int);
        let beneath = lower.skip(root.len() as int);
        assert(beneath.take(above.len() as int) =~= above) by {
            assert(above =~= lower.take(upper.len() as int).skip(root.len() as int));
        }
        lemma_names_of_prefix(beneath, policy.ignore_case, above.len() as int);
        let (count, glob) = choose|count: int, glob: int|
            0 <= count <= names_of(above, policy.ignore_case).len() && 0 <= glob < policy.globs.len()
                && #[trigger] policy.globs[glob].matches(#[trigger] names_of(above, policy.ignore_case).take(count));
        assert(names_of(beneath, policy.ignore_case).take(count) =~= names_of(above, policy.ignore_case).take(count));
        assert(policy.globs[glob].matches(names_of(beneath, policy.ignore_case).take(count)));
    }
}

} // verus!
