use omnipath::pure::iter::Extension;
use omnipath::pure::{Component, PurePath, PurePathBuf};

#[test]
fn component_new_rejects_separator() {
    assert!(Component::new("a/b", '/').is_none());
    let c = Component::new("file.txt", '/').unwrap();
    assert_eq!("file.txt", c.as_str());
    assert!(!c.is_empty());
    assert!(Component::new("", '/').unwrap().is_empty());
}

#[test]
fn extensions_innermost_first() {
    let c = Component::new("a.tar.gz", '/').unwrap();
    let mut exts = c.extensions();
    let collected: Vec<String> = {
        let mut v = Vec::new();
        while let Some(e) = exts.next() {
            v.push(e.extension().to_string());
        }
        v
    };
    assert_eq!(vec!["gz".to_string(), "tar".to_string()], collected);
    assert_eq!(Some("gz"), c.extension());
    assert_eq!("a.tar", c.file_name());
}

#[test]
fn extensions_skip_leading_dot() {
    let c = Component::new(".bashrc", '/').unwrap();
    let mut exts = c.extensions();
    assert!(exts.next().is_none());
    assert_eq!(None, c.extension());
    assert_eq!(".bashrc", c.file_name());

    let c = Component::new(".bashrc.bak", '/').unwrap();
    assert_eq!(Some("bak"), c.extension());
    assert_eq!(".bashrc", c.file_name());
}

#[test]
fn extension_split_points() {
    let c = Component::new("a.tar.gz", '/').unwrap();
    let mut exts = c.extensions();
    let first: Extension = exts.next().unwrap();
    assert_eq!(("a.tar", ".gz"), first.split_once());
    assert_eq!(".gz", first.full_extension());
    assert_eq!("a.tar", first.stem());
    let second: Extension = exts.next().unwrap();
    assert_eq!("a", second.stem());
    assert_eq!(".tar.gz", second.full_extension());
    assert_eq!("tar", second.extension());
    assert!(exts.next().is_none());
}

#[test]
fn components_forward_with_trailing_empty() {
    let p = PurePath::from_str("a/b/", '/');
    let mut it = p.components();
    let mut names = Vec::new();
    while let Some(c) = it.next() {
        names.push(c.component().as_str().to_string());
    }
    assert_eq!(vec!["a".to_string(), "b".to_string(), String::new()], names);
}

#[test]
fn components_round_trip_join() {
    for text in ["a/b/c", "a//b", "/a/", "", "abc", "//"] {
        let p = PurePath::from_str(text, '/');
        let mut it = p.components();
        let mut joined = String::new();
        let mut first = true;
        while let Some(c) = it.next() {
            if !first {
                joined.push('/');
            }
            joined.push_str(c.component().as_str());
            first = false;
        }
        assert_eq!(text, joined);
    }
}

#[test]
fn ancestors_walk_backwards() {
    let p = PurePath::from_str("a/b/c", '/');
    let mut it = p.ancestors();
    let first = it.next().unwrap();
    assert_eq!("c", first.component().as_str());
    assert_eq!("a/b", first.parent().as_str());
    let second = it.next().unwrap();
    assert_eq!("b", second.component().as_str());
    assert_eq!("a", second.parent().as_str());
    let third = it.next().unwrap();
    assert_eq!("a", third.component().as_str());
    assert_eq!("", third.parent().as_str());
    assert!(it.next().is_none());
}

#[test]
fn pure_path_last_and_parent() {
    let p = PurePath::from_str("a/b/c", '/');
    assert_eq!("c", p.last().unwrap().as_str());
    assert_eq!("a/b", p.parent().unwrap().as_str());
    assert!(p.is_file_name_empty() == false);
    let q = PurePath::from_str("a/", '/');
    assert!(q.is_file_name_empty());
    assert_eq!("", q.last().unwrap().as_str());
    assert!(PurePath::from_str("", '/').last().is_none());
}

#[test]
fn pure_path_buf_push_pop() {
    let mut buf = PurePathBuf::new('/');
    buf.push(Component::new("a", '/').unwrap());
    buf.push(Component::new("b", '/').unwrap());
    assert_eq!("a/b", buf.as_path().as_str());
    assert!(buf.pop());
    assert_eq!("a", buf.as_path().as_str());
    assert!(buf.pop());
    assert_eq!("", buf.as_path().as_str());
    assert!(!buf.pop());
    buf.push(Component::new("x", '/').unwrap());
    buf.clear();
    assert!(buf.as_path().is_empty());
}

#[test]
fn pure_path_buf_pop_trailing_separator() {
    let mut buf = PurePathBuf::new('/');
    buf.push(Component::new("a", '/').unwrap());
    buf.push(Component::new("", '/').unwrap());
    assert_eq!("a/", buf.as_path().as_str());
    assert!(buf.pop());
    assert_eq!("a", buf.as_path().as_str());
}

#[test]
fn display_with_substituted_separator() {
    let p = PurePath::from_str("a\\b\\c", '\\');
    let d = p.display().separator('/').unwrap();
    assert_eq!("a/b/c", d.to_string());

    let q = PurePath::from_str("a/b", '\\');
    assert!(q.display().separator('/').is_err());
    // The path's own separator occurs nowhere in the text, so requesting it
    // succeeds and displays the text unchanged.
    let same = q.display().separator('\\').unwrap();
    assert_eq!("a/b", same.to_string());
    assert_eq!("a/b", q.display().to_string());
    // A separator that does occur in the text is refused even when it is
    // not the path's own.
    assert!(PurePath::from_str("a-b", '/').display().separator('-').is_err());
}
