use spacemind::path::FilePath;
use spacemind::policy::{PathMatcher, PathRule, Platform};
use spacemind::progress::CancellationToken;
use std::path::Path;

#[test]
fn exact_rules_match_the_path_and_descendants() {
    let matcher = PathMatcher::new(
        &FilePath::new("/home/user"),
        &[PathRule::Exact(FilePath::new("Documents"))],
    )
    .unwrap();

    assert!(matcher.is_match(&FilePath::new("/home/user/Documents")));
    assert!(matcher.is_match(&FilePath::new("/home/user/Documents/report.txt")));
    assert!(!matcher.is_match(&FilePath::new("/home/user/Downloads/report.txt")));
}

#[test]
fn glob_rules_match_nested_paths_and_descendants() {
    let matcher = PathMatcher::new(
        &FilePath::new("/workspace"),
        &[
            PathRule::Glob("node_modules".to_owned()),
            PathRule::Glob("*.git/*".to_owned()),
        ],
    )
    .unwrap();

    assert!(matcher.is_match(&FilePath::new("/workspace/app/node_modules/pkg/index.js")));
    assert!(matcher.is_match(&FilePath::new("/workspace/app/.git/objects/a")));
    assert!(!matcher.is_match(&FilePath::new("/workspace/app/src/index.js")));
}

#[test]
fn question_mark_matches_one_character() {
    let matcher = PathMatcher::new(
        &FilePath::new("/workspace"),
        &[PathRule::Glob("cache-?".to_owned())],
    )
    .unwrap();

    assert!(matcher.is_match(&FilePath::new("/workspace/tmp/cache-a/file")));
    assert!(!matcher.is_match(&FilePath::new("/workspace/tmp/cache-old/file")));
}

#[test]
fn cancellation_is_shared_between_clones() {
    let first = CancellationToken::new();
    let second = first.clone();

    second.cancel();

    assert!(first.is_cancelled());
}

#[test]
fn tokens_begin_without_a_request_and_do_not_share_it_with_others() {
    let first = CancellationToken::new();
    let second = CancellationToken::default();
    assert!(!first.is_cancelled());
    assert!(!second.is_cancelled());
    first.cancel();
    first.cancel();
    assert!(first.is_cancelled());
    assert!(!second.is_cancelled());
}

fn glob_matcher(pattern: &str) -> PathMatcher {
    PathMatcher::new(&FilePath::new("/root"), &[PathRule::Glob(pattern.to_owned())]).unwrap()
}

#[test]
fn a_leading_separator_anchors_a_glob_at_the_root() {
    for pattern in ["/build", "./build", "\\build"] {
        let matcher = glob_matcher(pattern);
        assert!(matcher.is_match(&FilePath::new("/root/build/out.o")), "{pattern}");
        assert!(!matcher.is_match(&FilePath::new("/root/app/build")), "{pattern}");
        assert!(!matcher.is_match(&FilePath::new("/build")), "{pattern}");
    }
}

#[test]
fn rules_may_pass_over_the_case_of_letters() {
    let root = FilePath::new("/Home/Élan");
    let rules = [
        PathRule::Exact(FilePath::new("Documents")),
        PathRule::Glob("*.ISO".to_owned()),
    ];
    let folding = PathMatcher::with_case(&root, &rules, true).unwrap();
    assert!(folding.is_match(&FilePath::new("/home/élan/DOCUMENTS/report.txt")));
    assert!(folding.is_match(&FilePath::new("/Home/Élan/images/Disk.iso")));
    assert!(!folding.is_match(&FilePath::new("/home/élan/Downloads")));
    let strict = PathMatcher::new(&root, &rules).unwrap();
    assert!(!strict.is_match(&FilePath::new("/Home/Élan/DOCUMENTS/report.txt")));
    assert!(!strict.is_match(&FilePath::new("/Home/Élan/images/Disk.iso")));
    assert!(strict.is_match(&FilePath::new("/Home/Élan/images/Disk.ISO")));
    assert!(Platform::Windows.ignores_case());
    assert!(!Platform::Linux.ignores_case());
    assert!(!Platform::Other.ignores_case());
}

#[test]
fn two_stars_stand_for_any_number_of_directories() {
    let matcher = glob_matcher("a/**/z");
    assert!(matcher.is_match(&FilePath::new("/root/a/z")));
    assert!(matcher.is_match(&FilePath::new("/root/a/b/c/z")));
    assert!(!matcher.is_match(&FilePath::new("/root/a/b/c")));
}

#[test]
fn patterns_that_name_nothing_are_refused_with_their_reason() {
    for (pattern, reason) in [
        ("  ", "pattern cannot be empty"),
        ("///", "pattern must identify a path"),
        ("./", "pattern must identify a path"),
    ] {
        let rules = [PathRule::Glob(pattern.to_owned())];
        let message = PathMatcher::new(&FilePath::new("/root"), &rules).unwrap_err().describe();
        assert!(message.contains(reason), "{message}");
        assert!(message.contains(&format!("{:?}", pattern.trim())), "{message}");
    }
}

#[test]
fn what_matches_is_matched_with_everything_below_it() {
    let matcher = glob_matcher("*.tmp");
    let mut below = FilePath::new("/root/work/x.tmp");
    assert!(matcher.is_match(&below));
    for name in ["one", "two", "three"] {
        below = below.child(name);
        assert!(matcher.is_match(&below));
    }
}

#[test]
fn paths_read_back_what_they_write() {
    for text in ["/", "/a/b", "a/../b", "./x", "../y", "", "/tmp/\u{e9}"] {
        let path = FilePath::new(text);
        assert!(FilePath::from_bytes(&path.to_bytes()).same(&path), "{text}");
    }
    let odd = FilePath::from_bytes(b"/tmp/\x80");
    assert_eq!(odd.to_bytes(), b"/tmp/\x80".to_vec());
    assert_eq!(odd.display(), "/tmp/\u{fffd}");
}

#[test]
fn paths_are_shown_and_shortened_as_they_are_spelled() {
    let texts = [
        "", "/", "//", ".", "./", "..", "a", "a/", "a//b", "a/./b", "./a", ".//a/.", "/a", "//a",
        "/./a//b/", "/a//b/./c/.", "a/../b", "/a/b/c", "/.", "a/./", "..//b", "./..", "/a/./b//c",
    ];
    for text in texts {
        let path = FilePath::new(text);
        let known = Path::new(text);
        assert_eq!(path.display(), known.display().to_string(), "{text}");
        let parent = path.parent_as_given().map(|parent| parent.display());
        assert_eq!(parent, known.parent().map(|parent| parent.display().to_string()), "{text}");
        for root in texts {
            let relative = known
                .strip_prefix(root)
                .ok()
                .filter(|relative| !relative.as_os_str().is_empty())
                .unwrap_or(known);
            assert_eq!(
                path.display_relative(&FilePath::new(root)),
                relative.display().to_string(),
                "{text} below {root}"
            );
            let joined = FilePath::new(root).join(&path);
            let wanted = Path::new(root).join(known);
            assert_eq!(joined.display(), wanted.display().to_string(), "{root} with {text}");
            assert_eq!(joined, FilePath::new(&wanted.display().to_string()), "{root} with {text}");
        }
    }
}

#[test]
fn normalizing_resolves_dots_once_and_for_all() {
    let path = FilePath::new("/a/./b/../c");
    let plain = path.normalize();
    assert_eq!(plain.display(), "/a/c");
    assert!(plain.normalize().same(&plain));
}

#[test]
fn paths_are_ordered_by_their_components() {
    let first = FilePath::new("/a/b");
    let second = FilePath::new("/a.b");
    assert!(first.not_after(&second));
    assert!(!second.not_after(&first));
    assert!(first.not_after(&first));
}

#[test]
fn names_split_into_stem_and_extension() {
    let path = FilePath::new("/x/archive.tar.gz");
    assert_eq!(path.file_stem().unwrap(), b"archive.tar".to_vec());
    assert_eq!(path.extension().unwrap(), b"gz".to_vec());
    assert_eq!(FilePath::new("/x/.hidden").extension(), None);
    assert_eq!(FilePath::new("/x/..").file_name(), None);
    assert!(path.parent().unwrap().same(&FilePath::new("/x")));
    assert!(FilePath::new("/").parent().is_none());
}
