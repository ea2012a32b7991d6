use omnipath::posix::{posix_absolute_from, posix_lexically_absolute_from};
use omnipath::win32::{to_winuser_candidate, verbatim_exact_step, verbatim_from_wide,
    VerbatimExactStep};
use omnipath::to_wide;

fn wide(s: &str) -> Vec<u16> {
    s.encode_utf16().collect()
}

#[test]
fn posix_absolute_keeps_parent_references() {
    assert_eq!("/tmp/path/to/../file", posix_absolute_from("path/to/..//./file", "/tmp"));
    assert_eq!(
        "/tmp/foo/../bar/path/to/../file",
        posix_absolute_from("path/to/..//./file", "/tmp/foo//.././bar")
    );
    assert_eq!("/a/b", posix_absolute_from("/a/b", "/ignored"));
    assert_eq!("//net/x", posix_absolute_from("//net/x", "/ignored"));
    assert_eq!("/three/x", posix_absolute_from("///three/x", "/ignored"));
    assert_eq!("/tmp/a/", posix_absolute_from("a/", "/tmp"));
}

#[test]
fn posix_lexical_resolves_parent_references() {
    assert_eq!("/tmp/path/file", posix_lexically_absolute_from("path/to/..//./file", "/tmp"));
    assert_eq!(
        "/tmp/bar/path/file",
        posix_lexically_absolute_from("path/to/..//./file", "/tmp/foo//.././bar")
    );
    assert_eq!("/x", posix_lexically_absolute_from("../x", "/tmp"));
    assert_eq!("/", posix_lexically_absolute_from("../..", "/tmp"));
    assert_eq!("//", posix_lexically_absolute_from("..", "//net"));
}

#[test]
fn wide_encoding_rejects_nulls() {
    assert!(to_wide("a\u{0}b").is_err());
    let v = to_wide("a\u{a3}\u{1f60d}").unwrap();
    let mut expected: Vec<u16> = "a\u{a3}\u{1f60d}".encode_utf16().collect();
    expected.push(0);
    assert_eq!(expected, v);
    assert_eq!(vec![0u16], to_wide("").unwrap());
}

#[test]
fn winuser_candidates() {
    assert_eq!(Some(r"C:\path\to\file.txt".to_string()),
        to_winuser_candidate(r"\\?\C:\path\to\file.txt"));
    assert_eq!(Some(r"\\server\share\file.txt".to_string()),
        to_winuser_candidate(r"\\?\UNC\server\share\file.txt"));
    assert_eq!(Some(r"\\.\pipe\name".to_string()), to_winuser_candidate(r"\\?\pipe\name"));
    assert_eq!(None, to_winuser_candidate(r"C:\plain"));
}

#[test]
fn verbatim_prefix_decisions() {
    assert_eq!(wide(r"\\?\C:\x"), verbatim_from_wide(&wide(r"C:\x"), true));
    assert_eq!(wide(r"\\?\C:"), verbatim_from_wide(&wide(r"C:\"), false));
    assert_eq!(wide(r"\\?\x"), verbatim_from_wide(&wide(r"\\.\x"), true));
    assert_eq!(wide(r"\\?\x"), verbatim_from_wide(&wide(r"\\?\x"), true));
    assert_eq!(wide(r"\??\x"), verbatim_from_wide(&wide(r"\??\x"), true));
    assert_eq!(wide(r"\\?\UNC\server\share"), verbatim_from_wide(&wide(r"\\server\share"), true));
    assert_eq!(wide(r"rel"), verbatim_from_wide(&wide(r"rel"), true));
}

#[test]
fn verbatim_exact_decisions() {
    match verbatim_exact_step(&wide(r"C:\path.\to\.\..")) {
        VerbatimExactStep::Done(v) => assert_eq!(wide(r"\\?\C:\path.\to\.\.."), v),
        _ => panic!("expected a decided form"),
    }
    match verbatim_exact_step(&wide(r"\\.\pipe")) {
        VerbatimExactStep::Done(v) => assert_eq!(wide(r"\\?\pipe"), v),
        _ => panic!("expected a decided form"),
    }
    match verbatim_exact_step(&wide(r"\\server\share")) {
        VerbatimExactStep::Done(v) => assert_eq!(wide(r"\\?\UNC\server\share"), v),
        _ => panic!("expected a decided form"),
    }
    assert!(matches!(verbatim_exact_step(&wide(r"\rooted")), VerbatimExactStep::NeedRootBase));
    assert!(matches!(verbatim_exact_step(&wide(r"relative")), VerbatimExactStep::NeedCwdBase));
}

#[test]
fn clean_kind_examples_stay_stable() {
    for p in [r"C:\a\..\b.", r"C:rel\..", r"\\.\dev\x\..", r"\rooted\..\x", r"a\b\..\c"] {
        let once = omnipath::clean(p);
        assert_eq!(once, omnipath::clean(&once));
    }
}

#[test]
fn parent_accounting_examples() {
    assert_eq!(r"..\..\a", omnipath::clean(r"..\..\a"));
    assert_eq!(r"..\..\..\a", omnipath::clean(&format!(r"..\{}", r"..\..\a")));
    assert_eq!(r"..", omnipath::clean(r"..\a\.."));
}
