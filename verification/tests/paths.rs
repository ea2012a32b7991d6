fn clean(path: &str) -> String {
    omnipath::clean(path)
}

#[test]
fn path_test_manual() {
    assert_eq!(r"C:\path\to\file", clean(r"C:\path\to\file"));
    assert_eq!(r"C:\path\to\file", clean(r"C:/path/to/file"));
    assert_eq!(r"C:\path\to\file\", clean(r"C:\path\to\file\"));
    assert_eq!(r"C:\path\to\file\", clean(r"C:/path/to/file/"));
    assert_eq!(r"C:\path\to\file", clean(r"C:\path/to\file"));
    assert_eq!(r"C:\path\to\file", clean(r"C:/path\to\file"));
    assert_eq!(r"C:\path\to\file", clean(r"C:\path\to\file..."));
    assert_eq!(r"C:\path\to\file", clean(r"C:\path\to\file..."));
    assert_eq!(r"C:\path\to\file", clean(r"C:\path\to\file.. ..."));
    assert_eq!(r"C:\path\to\file", clean(r"C:\path\to\file.. ..."));
    assert_eq!(r"C:\path\to\file", clean(r"C:\path\to\file "));
    assert_eq!(r"C:\path\to\file\", clean(r"C:\path\to\file\..."));
    assert_eq!(r"C:\path\to\file\", clean(r"C:\path\to\file\.. ..."));
    assert_eq!(r"C:\path\to\file\", clean(r"C:\path\to\file\.. ..."));
    assert_eq!(r"C:\path\to\file\", clean(r"C:\path\to\file\ "));
    assert_eq!(r"C:\path\to\file", clean(r"C:\path\to.\file"));
    assert_eq!(r"C:\path\to\file", clean(r"C:\path\to\file\."));
    assert_eq!(r"C:\path\to\file", clean(r"C:\path\to\.\file"));
    assert_eq!(r"C:\path\to..\file", clean(r"C:\path\to..\file"));
    assert_eq!(r"C:\path\to", clean(r"C:\path\to\file\.."));
    assert_eq!(r"C:\path", clean(r"C:\path\to\file\..\.."));
    assert_eq!(r"C:\", clean(r"C:\path\to\file\..\..\.."));
    assert_eq!(r"C:\", clean(r"C:\path\to\file\..\..\..\.."));
    assert_eq!(r"C:\", clean(r"C:\path\to\file\..\..\..\..\.."));
    assert_eq!(r"C:\path\file", clean(r"C:\path\to\..\file"));
    assert_eq!(r"C:\file", clean(r"C:\path\to\..\..\file"));
    assert_eq!(r"C:\file", clean(r"C:\path\to\..\..\..\file"));
    assert_eq!(r"C:\path\file", clean(r"C:\path\to\.\..\file"));
    assert_eq!(r"path\to\file", clean(r"path\to\file"));
    assert_eq!(r"path\to", clean(r"path\to\file\.."));
    assert_eq!(r"path", clean(r"path\to\file\..\.."));
    assert_eq!(r"", clean(r"path\to\file\..\..\.."));
    assert_eq!(r"..", clean(r"path\to\file\..\..\..\.."));
    assert_eq!(r"..\..", clean(r"path\to\file\..\..\..\..\.."));
    assert_eq!(r"path\file", clean(r"path\to\..\file"));
    assert_eq!(r"to\file", clean(r"path\..\to\file"));
    assert_eq!(r"file", clean(r"path\to\..\..\file"));
    assert_eq!(r"..\to\file", clean(r"path\..\..\to\file"));
    assert_eq!(r"path", clean(r"path\to\file\..\.."));

    assert_eq!(r"\\server\share", clean(r"\\server\share"));
    assert_eq!(r"\\server\share", clean(r"//server/share"));
    assert_eq!(r"\\server\share\", clean(r"\\server\share\"));

    assert_eq!(r"\\?\C:\path\to\file.. ...", clean(r"\\?\C:\path\to\file.. ..."));
    // Should this be made to return `\\.\` so it doesn't change the path kind?
    assert_eq!(r"\\?\C:\path\to\file", clean(r"//?/C:\path\to\file.. ..."));
    assert_eq!(r"\\server\share", clean(r"\\server\share"));
    assert_eq!(r"\\server\share\", clean(r"\\server\share\"));
}

#[test]
fn clean_separator_mixing() {
    assert_eq!(clean(r"C:\path/to\file"), clean(r"C:/path\to/file"));
    assert_eq!(r"C:\path\to\file", clean(r"C:\path/to\file"));
}

#[test]
fn clean_trailing_dot_single_pass() {
    assert_eq!(r"C:\a\file", clean(r"C:\a\file.."));
    assert_eq!(r"C:\a\file", clean(r"C:\a\file..."));
    assert_eq!(r"C:\file", clean(r"C:\a\..\file"));
}

#[test]
fn clean_literal_scenarios() {
    assert_eq!(r"path", clean("path\\to\\file\\..\\.."));
    assert_eq!(r"..\to\file", clean("path\\..\\..\\to\\file"));
    assert_eq!(r"\\?\C:\path\to\file.. ...", clean("\\\\?\\C:\\path\\to\\file.. ..."));
}

#[test]
fn clean_relative_and_root_edges() {
    assert_eq!(r"", clean(r""));
    assert_eq!(r"..", clean(r".."));
    assert_eq!(r"..\..", clean(r"..\.."));
    assert_eq!(r"\", clean(r"\"));
    assert_eq!(r"\", clean(r"\.."));
    assert_eq!(r"\y", clean(r"/x/../y"));
    assert_eq!(r"C:", clean(r"C:"));
    assert_eq!(r"C:..\x", clean(r"C:..\x"));
    assert_eq!(r"\\", clean(r"\\"));
    assert_eq!(r"\\server\x", clean(r"\\server\\x"));
    assert_eq!(r"\\.\pipe\name", clean(r"\\.\pipe\.\name"));
}

#[test]
fn clean_keeps_idempotence_on_samples() {
    for p in [
        r"C:\path\to\file\..\..",
        r"path\..\..\to\file",
        r"//?/C:\path\to\file.. ...",
        r"\\server\share\",
        r"C:/a/../b/./c/",
        r"...",
        r"..\..",
        r"C:file..",
        r"\x\..\..\y",
    ] {
        let once = clean(p);
        assert_eq!(once, clean(&once));
    }
}

#[test]
fn clean_collapses_a_lone_share_separator_stepwise() {
    // A UNC path whose share is nothing but dots loses the share on the
    // first pass and the now-dangling separator on the second: the one
    // stated exception to idempotence.
    assert_eq!(r"\\server\", clean(r"\\server\..."));
    assert_eq!(r"\\server", clean(r"\\server\"));
    // With any real share or subpath text the cleaned form is stable.
    assert_eq!(r"\\server\share", clean(&clean(r"\\server\share..")));
    assert_eq!(r"\\server\x", clean(&clean(r"\\server\\x")));
}

#[test]
fn trim_full_path_preserves_dot_components() {
    assert_eq!(r"a\b", omnipath::trim_full_path("a\\b.. ."));
    assert_eq!(r"a\..", omnipath::trim_full_path("a\\.."));
    assert_eq!(r"..", omnipath::trim_full_path(".."));
    assert_eq!(r"a\.", omnipath::trim_full_path("a\\."));
    assert_eq!(r"a", omnipath::trim_full_path("a."));
    assert_eq!(r"", omnipath::trim_full_path(""));
}
