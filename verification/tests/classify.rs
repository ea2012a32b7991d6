use omnipath::{ParsedUtf8Path, StrPath, Win32Absolute, Win32Relative, WinPathKind};
use omnipath::{WindowsComponent, WindowsPath};

#[test]
fn classify_kinds() {
    assert_eq!(WinPathKind::Drive('C' as u16), WinPathKind::from_str(r"C:\path"));
    assert_eq!(WinPathKind::Drive('C' as u16), WinPathKind::from_str(r"C:/path"));
    assert_eq!(WinPathKind::DriveRelative('C' as u16), WinPathKind::from_str(r"C:file"));
    assert_eq!(WinPathKind::Unc, WinPathKind::from_str(r"\\server\share\x"));
    assert_eq!(WinPathKind::Device, WinPathKind::from_str(r"\\.\COM1"));
    assert_eq!(WinPathKind::Device, WinPathKind::from_str(r"//?/x"));
    assert_eq!(WinPathKind::Verbatim, WinPathKind::from_str(r"\\?\C:\x"));
    assert_eq!(WinPathKind::RootRelative, WinPathKind::from_str(r"\x"));
    assert_eq!(WinPathKind::CurrentDirectoryRelative, WinPathKind::from_str(r"x\y"));
    assert_eq!(WinPathKind::CurrentDirectoryRelative, WinPathKind::from_str(""));
}

#[test]
fn classify_non_ascii_drive() {
    let pound = "\u{a3}:\\x";
    assert_eq!(WinPathKind::Drive(0xa3), WinPathKind::from_str(pound));
    let pound_rel = "\u{a3}:x";
    assert_eq!(WinPathKind::DriveRelative(0xa3), WinPathKind::from_str(pound_rel));
    let astral = "\u{1f60d}:\\x";
    assert_eq!(WinPathKind::CurrentDirectoryRelative, WinPathKind::from_str(astral));
}

#[test]
fn classify_verbatim_is_byte_exact() {
    assert_eq!(WinPathKind::Verbatim, WinPathKind::from_str(r"\\?\"));
    assert_ne!(WinPathKind::Verbatim, WinPathKind::from_str(r"//?/"));
    assert!(omnipath::is_verbatim_str(r"\\?\x"));
    assert!(!omnipath::is_verbatim_str(r"//?/x"));
}

#[test]
fn kind_lengths() {
    assert_eq!(3, WinPathKind::Drive('C' as u16).utf16_len());
    assert_eq!(3, WinPathKind::Drive('C' as u16).utf8_len());
    assert_eq!(4, WinPathKind::Drive(0xa3).utf8_len());
    assert_eq!(3, WinPathKind::Drive(0xa3).utf16_len());
    assert_eq!(2, WinPathKind::DriveRelative('C' as u16).utf8_len());
    assert_eq!(4, WinPathKind::Verbatim.utf8_len());
    assert_eq!(2, WinPathKind::Unc.utf16_len());
    assert_eq!(1, WinPathKind::RootRelative.utf8_len());
    assert_eq!(0, WinPathKind::CurrentDirectoryRelative.utf16_len());
}

#[test]
fn kind_predicates() {
    assert!(WinPathKind::Drive('C' as u16).is_absolute());
    assert!(WinPathKind::Verbatim.is_absolute());
    assert!(!WinPathKind::RootRelative.is_absolute());
    assert!(WinPathKind::RootRelative.is_legacy_relative());
    assert!(WinPathKind::DriveRelative('C' as u16).is_legacy_relative());
    assert!(!WinPathKind::Unc.is_legacy_relative());
    assert!(matches!(
        WinPathKind::DriveRelative('C' as u16).as_relative(),
        Some(Win32Relative::DriveRelative(_))
    ));
    assert!(WinPathKind::Unc.as_relative().is_none());
    assert!(matches!(
        Win32Absolute::from_kind(WinPathKind::Unc),
        Some(Win32Absolute::Unc)
    ));
    assert!(Win32Absolute::from_kind(WinPathKind::Verbatim).is_none());
    assert!(Win32Relative::Root.is_legacy_relative());
}

#[test]
fn parsed_path_parts() {
    let parsed = ParsedUtf8Path::from_utf8(r"\\server\share\x");
    assert_eq!(WinPathKind::Unc, parsed.kind());
    assert_eq!((r"\\server\share", r"\x"), parsed.parts());
    assert_eq!(r"\\server\share\x", parsed.as_utf8());

    let parsed = ParsedUtf8Path::from_utf8(r"C:\a\b");
    assert_eq!((r"C:\", r"a\b"), parsed.parts());

    let parsed = ParsedUtf8Path::from_utf8(r"\\server");
    assert_eq!((r"\\server", r""), parsed.parts());
}

#[test]
fn normalized_prefixes() {
    assert_eq!(r"C:\", ParsedUtf8Path::from_utf8(r"C:/x").normalized_str_kind().as_str());
    assert_eq!(r"C:", ParsedUtf8Path::from_utf8(r"C:x").normalized_str_kind().as_str());
    assert_eq!(r"\\?\", ParsedUtf8Path::from_utf8(r"\\?\x").normalized_str_kind().as_str());
    assert_eq!(r"\\.\", ParsedUtf8Path::from_utf8(r"//./x").normalized_str_kind().as_str());
    assert_eq!(r"\\?\", ParsedUtf8Path::from_utf8(r"//?/x").normalized_str_kind().as_str());
    assert_eq!(r"\", ParsedUtf8Path::from_utf8(r"/x").normalized_str_kind().as_str());
    assert_eq!(r"\\", ParsedUtf8Path::from_utf8(r"\\s\t\x").normalized_str_kind().as_str());
    assert_eq!(r"", ParsedUtf8Path::from_utf8(r"x").normalized_str_kind().as_str());
}

#[test]
fn unc_prefix_scan() {
    assert_eq!(12, omnipath::str_unc_prefix_len(r"server\share\x"));
    assert_eq!(12, omnipath::str_unc_prefix_len(r"server\share"));
    assert_eq!(6, omnipath::str_unc_prefix_len(r"server"));
    assert_eq!(7, omnipath::str_unc_prefix_len(r"server\"));
}

#[test]
fn windows_path_parse_and_kind() {
    let p = WindowsPath::parse(r"C:/path/.//to/../file.. ");
    assert_eq!(r"C:\", p.prefix_str());
    assert_eq!(r"path\file", p.subpath_str());
    assert_eq!(WinPathKind::Drive('C' as u16), p.kind());

    let p = WindowsPath::parse(r"x\y\..");
    assert_eq!(r"", p.prefix_str());
    assert_eq!(r"x", p.subpath_str());

    let p = WindowsPath::parse(r"\\server\share\a\.\b\");
    assert_eq!(r"\\server\share\", p.prefix_str());
    assert_eq!(r"a\b\", p.subpath_str());
}

#[test]
fn windows_path_push_pop() {
    let mut p = WindowsPath::new();
    assert!(!p.push(WindowsComponent::new_unchecked("a")));
    assert!(!p.push(WindowsComponent::new_unchecked("b")));
    assert_eq!(r"a\b", p.subpath_str());
    assert!(!p.push(WindowsComponent::new_unchecked("..")));
    assert_eq!(r"a", p.subpath_str());
    assert!(!p.push(WindowsComponent::new_unchecked(".")));
    assert_eq!(r"a", p.subpath_str());
    assert!(p.pop());
    assert_eq!(r"", p.subpath_str());
    assert!(!p.pop());
    assert!(!p.pop_empty());
}

#[test]
fn windows_path_push_trims_and_reports() {
    // A pushed component loses its trailing dots and spaces, and the push
    // reports that the trimming removed something.
    let mut p = WindowsPath::new();
    assert!(p.push(WindowsComponent::new_unchecked("x..")));
    assert_eq!(r"x", p.subpath_str());
    assert!(p.push(WindowsComponent::new_unchecked("name.. ..")));
    assert_eq!(r"x\name", p.subpath_str());
    // `.` and `..` are directory references, never trimmed or reported.
    assert!(!p.push(WindowsComponent::new_unchecked("..")));
    assert_eq!(r"x", p.subpath_str());
}

#[test]
fn windows_component_cleaning() {
    assert_eq!("name", WindowsComponent::new_unchecked("name.").clean_dir_name().as_str());
    assert_eq!("name..", WindowsComponent::new_unchecked("name..").clean_dir_name().as_str());
    assert_eq!(".", WindowsComponent::new_unchecked(".").clean_dir_name().as_str());
    assert_eq!("name", WindowsComponent::new_unchecked("name.. ..").clean_file_name().as_str());
    assert_eq!("..", WindowsComponent::new_unchecked("..").clean_file_name().as_str());
    assert_eq!(".", WindowsComponent::new_unchecked(".").clean_file_name().as_str());
}

#[test]
fn str_path_win32_safety() {
    assert!(StrPath::from_str(r"a\b\c").is_win32_safe());
    assert!(StrPath::from_str(r"a\b\").is_win32_safe());
    assert!(!StrPath::from_str(r"a\b.").is_win32_safe());
    assert!(!StrPath::from_str(r"a \b").is_win32_safe());
    assert!(!StrPath::from_str(r"a\\b").is_win32_safe());
    assert!(!StrPath::from_str("a/b").is_win32_safe());
    assert!(!StrPath::from_str("a\u{0}b").is_win32_safe());
    assert!(StrPath::from_str("name").is_component_win32_safe());
    assert!(!StrPath::from_str("").is_component_win32_safe());
}

#[test]
fn str_path_walk_and_trim() {
    let p = StrPath::from_str(r"a\.\b\..\c.");
    let mut skip = 0usize;
    let comps = p.win32_ancestors(&mut skip);
    let names: Vec<&str> = comps.iter().map(|c| c.as_str()).collect();
    assert_eq!(vec!["c", "a"], names);
    assert_eq!(0, skip);

    let p = StrPath::from_str(r"..\..\x\");
    let mut skip = 0usize;
    let comps = p.win32_ancestors(&mut skip);
    let names: Vec<&str> = comps.iter().map(|c| c.as_str()).collect();
    assert_eq!(vec!["", "x"], names);
    assert_eq!(2, skip);

    assert_eq!("a", StrPath::from_str("a.. .").trim_filename().as_str());

    // A prepended parent reference is never cancelled: the walk yields the
    // same components and one more unresolved count.
    let base = StrPath::from_str(r"path\..\to");
    let prefixed = StrPath::from_str(r"..\path\..\to");
    let mut skip_base = 0usize;
    let mut skip_prefixed = 0usize;
    let a: Vec<&str> = base.win32_ancestors(&mut skip_base).iter().map(|c| c.as_str()).collect();
    let b: Vec<&str> =
        prefixed.win32_ancestors(&mut skip_prefixed).iter().map(|c| c.as_str()).collect();
    assert_eq!(a, b);
    assert_eq!(skip_base + 1, skip_prefixed);
}

#[test]
fn str_path_components() {
    let p = StrPath::from_str(r"a\b\c");
    let forward: Vec<&str> = p.verbatim_components().iter().map(|c| c.as_str()).collect();
    assert_eq!(vec!["a", "b", "c"], forward);
    let backward: Vec<&str> =
        p.reverse_verbatim_components().iter().map(|c| c.as_str()).collect();
    assert_eq!(vec!["c", "b", "a"], backward);
    assert_eq!(r"a\b", p.parent_verbatim().unwrap().as_str());
    assert!(StrPath::from_str("abc").parent_verbatim().is_none());
    assert_eq!(5, p.len());
    assert!(!p.is_empty());
    assert!(p.ends_with_char('c'));
    assert_eq!("a/b/c/", p.win_display(true));
    assert_eq!(r"a\b\c", p.win_display(false));
}

#[test]
fn kind_stable_under_cleaning() {
    for p in [
        r"C:\a\..\b.",
        r"C:/mixed\seps",
        r"C:rel\..",
        r"\\server\share\..",
        r"\\.\dev\x",
        r"\\?\kept\as\is",
        r"\rooted\..\..",
        r"plain\relative",
    ] {
        let cleaned = omnipath::clean(p);
        assert_eq!(WinPathKind::from_str(p), WinPathKind::from_str(&cleaned));
    }
    // The stated exceptions: a device path written with the `?` marker and
    // mixed separators is promoted to a verbatim prefix, and a relative
    // path may gain a drive prefix from its own first component.
    assert_eq!(WinPathKind::Device, WinPathKind::from_str("//?/x"));
    assert_eq!(WinPathKind::Verbatim, WinPathKind::from_str(&omnipath::clean("//?/x")));
    assert_eq!(
        WinPathKind::Drive('C' as u16),
        WinPathKind::from_str(&omnipath::clean(r"a\..\C:\b"))
    );
}

#[test]
fn utf8_utilities() {
    assert_eq!(1, omnipath::utf8_len(b'a'));
    assert_eq!(2, omnipath::utf8_len(0xC2));
    assert_eq!(3, omnipath::utf8_len(0xE4));
    assert_eq!(4, omnipath::utf8_len(0xF0));
    assert_eq!(0xa3, omnipath::bmp_utf8_to_utf16("\u{a3}".as_bytes()));
    assert_eq!('z' as u16, omnipath::bmp_utf8_to_utf16(b"z"));
    assert_eq!(0x4e09, omnipath::bmp_utf8_to_utf16("\u{4e09}".as_bytes()));
    assert_eq!(&b"cd"[..], omnipath::trim_start(b"abcd", 2));
    assert_eq!(&b""[..], omnipath::trim_start(b"ab", 5));
}
