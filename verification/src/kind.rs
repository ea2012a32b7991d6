//! The Windows path-kind classifier: a pure function from a string prefix to
//! a path kind together with the exact prefix length, in UTF-8 and UTF-16
//! units. Classification never fails: every string has exactly one kind.

use vstd::prelude::*;
use vstd::string::StrSliceExecFns;

use vstd::string::StringExecFns;

use crate::model::{find_first, is_win_sep, lemma_find_first_bounds, lemma_find_first_is,
    win_sep_fn};

verus! {

/// Windows path type.
///
/// This does not do any validation, so parsing the kind will never fail,
/// even for broken or invalid paths.
#[derive(Clone, Copy, Debug, PartialEq, Eq, Structural)]
pub enum WinPathKind {
    /// A traditional drive path such as `C:\`, `R:\`, etc.
    Drive(u16),
    /// A path to a network directory such as `\\server\share\`.
    Unc,
    /// A device path such as `\\.\COM1`.
    Device,
    /// A path that's relative to the current directory.
    CurrentDirectoryRelative,
    /// A path that is passed to the NT kernel without parsing, except to
    /// change the prefix. These start with `\\?\`.
    Verbatim,
    /// A DOS drive relative path (e.g. `C:file`).
    DriveRelative(u16),
    /// A DOS root relative path (e.g. `\file`).
    RootRelative,
}

/// The number of UTF-8 bytes that encode the character.
pub open spec fn char_utf8_len(c: char) -> int {
    if (c as u32) < 0x80 {
        1
    } else if (c as u32) < 0x800 {
        2
    } else if (c as u32) < 0x10000 {
        3
    } else {
        4
    }
}

/// The drive code: the character's UTF-16 code unit. Meaningful only for
/// characters of the basic multilingual plane.
pub open spec fn spec_drive_code(c: char) -> u16 {
    (c as u32) as u16
}

/// Whether the sequence begins with the exact verbatim prefix `\\?\`.
pub open spec fn starts_verbatim(s: Seq<char>) -> bool {
    s.len() >= 4 && s[0] == '\\' && s[1] == '\\' && s[2] == '?' && s[3] == '\\'
}

/// The kind denoted by the first few characters of a path.
pub open spec fn spec_kind(s: Seq<char>) -> WinPathKind {
    if s.len() == 0 {
        WinPathKind::CurrentDirectoryRelative
    } else if starts_verbatim(s) {
        WinPathKind::Verbatim
    } else {
        let c0 = s[0];
        if char_utf8_len(c0) >= 4 {
            WinPathKind::CurrentDirectoryRelative
        } else if (c0 as u32) >= 0x80 {
            if s.len() >= 3 && s[1] == ':' && is_win_sep(s[2]) {
                WinPathKind::Drive(spec_drive_code(c0))
            } else if s.len() >= 2 && s[1] == ':' {
                WinPathKind::DriveRelative(spec_drive_code(c0))
            } else {
                WinPathKind::CurrentDirectoryRelative
            }
        } else if is_win_sep(c0) {
            if s.len() >= 4 && is_win_sep(s[1]) && (s[2] == '.' || s[2] == '?') && is_win_sep(
                s[3],
            ) {
                WinPathKind::Device
            } else if s.len() >= 2 && is_win_sep(s[1]) {
                WinPathKind::Unc
            } else {
                WinPathKind::RootRelative
            }
        } else if s.len() >= 3 && s[1] == ':' && is_win_sep(s[2]) {
            WinPathKind::Drive(spec_drive_code(c0))
        } else if s.len() >= 2 && s[1] == ':' {
            WinPathKind::DriveRelative(spec_drive_code(c0))
        } else {
            WinPathKind::CurrentDirectoryRelative
        }
    }
}

/// The prefix length, in characters, that identifies the kind alone. For UNC
/// paths this covers only the leading `\\`; the server and share are counted
/// by `spec_prefix_chars`.
pub open spec fn kind_prefix_chars(k: WinPathKind) -> int {
    match k {
        WinPathKind::Drive(_) => 3,
        WinPathKind::Unc => 2,
        WinPathKind::Device => 4,
        WinPathKind::CurrentDirectoryRelative => 0,
        WinPathKind::Verbatim => 4,
        WinPathKind::DriveRelative(_) => 2,
        WinPathKind::RootRelative => 1,
    }
}

/// How many characters past the leading `\\` of a UNC path belong to the
/// `server\share` pair: up to the second separator, or to the end of the
/// sequence when it is missing.
pub open spec fn unc_extra_chars(t: Seq<char>) -> int {
    let p1 = find_first(t, win_sep_fn());
    if p1 >= t.len() {
        t.len() as int
    } else {
        let rest = t.skip(p1 as int + 1);
        let p2 = find_first(rest, win_sep_fn());
        if p2 >= rest.len() {
            t.len() as int
        } else {
            p1 + 1 + (p2 as int)
        }
    }
}

/// The full prefix length of a path, in characters.
pub open spec fn spec_prefix_chars(s: Seq<char>) -> int {
    let k = spec_kind(s);
    if k is Unc {
        2 + unc_extra_chars(s.skip(2))
    } else {
        kind_prefix_chars(k)
    }
}

pub proof fn lemma_prefix_chars_bounds(s: Seq<char>)
    ensures
        0 <= spec_prefix_chars(s) <= s.len(),
{
    let k = spec_kind(s);
    if k is Unc {
        let t = s.skip(2);
        lemma_find_first_bounds(t, win_sep_fn());
        let p1 = find_first(t, win_sep_fn());
        if p1 < t.len() {
            lemma_find_first_bounds(t.skip(p1 as int + 1), win_sep_fn());
        }
    }
}

/// Whether the kind stands on its own, with no base path needed.
pub open spec fn spec_is_absolute(k: WinPathKind) -> bool {
    k is Drive || k is Unc || k is Device || k is Verbatim
}

pub fn win_sep(c: char) -> (r: bool)
    ensures
        r == is_win_sep(c),
{
    c == '\\' || c == '/'
}

impl WinPathKind {
    /// Examine the path prefix to find the type of the path given.
    pub fn from_str(path: &str) -> (k: WinPathKind)
        ensures
            k == spec_kind(path@),
    {
        let n = path.unicode_len();
        if n == 0 {
            return WinPathKind::CurrentDirectoryRelative;
        }
        if n >= 4 && path.get_char(0) == '\\' && path.get_char(1) == '\\' && path.get_char(2)
            == '?' && path.get_char(3) == '\\' {
            return WinPathKind::Verbatim;
        }
        let c0 = path.get_char(0);
        let u = c0 as u32;
        if u >= 0x10000 {
            return WinPathKind::CurrentDirectoryRelative;
        }
        if u >= 0x80 {
            if n >= 2 && path.get_char(1) == ':' {
                if n >= 3 && win_sep(path.get_char(2)) {
                    return WinPathKind::Drive(u as u16);
                }
                return WinPathKind::DriveRelative(u as u16);
            }
            return WinPathKind::CurrentDirectoryRelative;
        }
        if win_sep(c0) {
            if n >= 2 && win_sep(path.get_char(1)) {
                if n >= 4 && (path.get_char(2) == '.' || path.get_char(2) == '?') && win_sep(
                    path.get_char(3),
                ) {
                    return WinPathKind::Device;
                }
                return WinPathKind::Unc;
            }
            return WinPathKind::RootRelative;
        }
        if n >= 2 && path.get_char(1) == ':' {
            if n >= 3 && win_sep(path.get_char(2)) {
                return WinPathKind::Drive(u as u16);
            }
            return WinPathKind::DriveRelative(u as u16);
        }
        WinPathKind::CurrentDirectoryRelative
    }

    /// Is the path absolute. Being absolute means it doesn't need to be
    /// joined to a base path (e.g. the current directory, or a drive current
    /// directory).
    pub fn is_absolute(self) -> (r: bool)
        ensures
            r == spec_is_absolute(self),
    {
        match self {
            WinPathKind::Drive(_) | WinPathKind::Unc | WinPathKind::Device
                | WinPathKind::Verbatim => true,
            _ => false,
        }
    }

    /// Returns the relative path kind or `None` for absolute paths.
    pub fn as_relative(self) -> (r: Option<Win32Relative>)
        ensures
            r == Win32Relative::spec_from_kind(self),
    {
        Win32Relative::from_kind(self)
    }

    /// Is the path one of the weird ones from DOS: relative to a drive's
    /// current directory, or to the current drive's root.
    pub fn is_legacy_relative(self) -> (r: bool)
        ensures
            r == (self is DriveRelative || self is RootRelative),
    {
        match self {
            WinPathKind::DriveRelative(_) | WinPathKind::RootRelative => true,
            _ => false,
        }
    }

    /// The number of UTF-16 code units that make up the path kind.
    pub fn utf16_len(self) -> (r: usize)
        ensures
            r == spec_kind_utf16_len(self),
    {
        match self {
            WinPathKind::Drive(_) => 3,
            WinPathKind::Unc => 2,
            WinPathKind::Device => 4,
            WinPathKind::CurrentDirectoryRelative => 0,
            WinPathKind::Verbatim => 4,
            WinPathKind::DriveRelative(_) => 2,
            WinPathKind::RootRelative => 1,
        }
    }

    /// The number of UTF-8 code units that make up the path kind. The drive
    /// letter of a drive path may take one, two or three bytes.
    pub fn utf8_len(self) -> (r: usize)
        ensures
            r == spec_kind_utf8_len(self),
    {
        match self {
            WinPathKind::Drive(drive) => drive_utf8_len(drive) + 2,
            WinPathKind::Unc => 2,
            WinPathKind::Device => 4,
            WinPathKind::CurrentDirectoryRelative => 0,
            WinPathKind::Verbatim => 4,
            WinPathKind::DriveRelative(drive) => drive_utf8_len(drive) + 1,
            WinPathKind::RootRelative => 1,
        }
    }
}

/// The number of UTF-8 bytes that encode a BMP drive code.
pub open spec fn spec_drive_utf8_len(drive: u16) -> int {
    if drive < 0x80 {
        1
    } else if drive < 0x800 {
        2
    } else {
        3
    }
}

fn drive_utf8_len(drive: u16) -> (r: usize)
    ensures
        r == spec_drive_utf8_len(drive),
{
    if drive < 0x80 {
        1
    } else if drive < 0x800 {
        2
    } else {
        3
    }
}

pub open spec fn spec_kind_utf16_len(k: WinPathKind) -> int {
    match k {
        WinPathKind::Drive(_) => 3,
        WinPathKind::Unc => 2,
        WinPathKind::Device => 4,
        WinPathKind::CurrentDirectoryRelative => 0,
        WinPathKind::Verbatim => 4,
        WinPathKind::DriveRelative(_) => 2,
        WinPathKind::RootRelative => 1,
    }
}

pub open spec fn spec_kind_utf8_len(k: WinPathKind) -> int {
    match k {
        WinPathKind::Drive(drive) => spec_drive_utf8_len(drive) + 2,
        WinPathKind::Unc => 2,
        WinPathKind::Device => 4,
        WinPathKind::CurrentDirectoryRelative => 0,
        WinPathKind::Verbatim => 4,
        WinPathKind::DriveRelative(drive) => spec_drive_utf8_len(drive) + 1,
        WinPathKind::RootRelative => 1,
    }
}

/// The type of relative path.
#[derive(Debug, Clone, Copy, PartialEq, Eq, Structural)]
pub enum Win32Relative {
    CurrentDirectory,
    DriveRelative(u16),
    Root,
}

impl Win32Relative {
    pub open spec fn spec_from_kind(kind: WinPathKind) -> Option<Win32Relative> {
        match kind {
            WinPathKind::CurrentDirectoryRelative => Some(Win32Relative::CurrentDirectory),
            WinPathKind::DriveRelative(drive) => Some(Win32Relative::DriveRelative(drive)),
            WinPathKind::RootRelative => Some(Win32Relative::Root),
            _ => None,
        }
    }

    pub fn from_kind(kind: WinPathKind) -> (r: Option<Self>)
        ensures
            r == Self::spec_from_kind(kind),
    {
        match kind {
            WinPathKind::CurrentDirectoryRelative => Some(Self::CurrentDirectory),
            WinPathKind::DriveRelative(drive) => Some(Self::DriveRelative(drive)),
            WinPathKind::RootRelative => Some(Self::Root),
            _ => None,
        }
    }

    /// Is the path one of the weird ones from DOS.
    pub fn is_legacy_relative(self) -> (r: bool)
        ensures
            r == (self is DriveRelative || self is Root),
    {
        match self {
            Self::DriveRelative(_) | Self::Root => true,
            _ => false,
        }
    }
}

/// The type of non-verbatim absolute path.
#[derive(Debug, Clone, Copy, PartialEq, Eq, Structural)]
pub enum Win32Absolute {
    Drive(u16),
    Unc,
    Device,
}

impl Win32Absolute {
    pub open spec fn spec_from_kind(kind: WinPathKind) -> Option<Win32Absolute> {
        match kind {
            WinPathKind::Drive(drive) => Some(Win32Absolute::Drive(drive)),
            WinPathKind::Unc => Some(Win32Absolute::Unc),
            WinPathKind::Device => Some(Win32Absolute::Device),
            _ => None,
        }
    }

    /// Verbatim paths will return `None`.
    pub fn from_kind(kind: WinPathKind) -> (r: Option<Self>)
        ensures
            r == Self::spec_from_kind(kind),
    {
        match kind {
            WinPathKind::Drive(drive) => Some(Self::Drive(drive)),
            WinPathKind::Unc => Some(Self::Unc),
            WinPathKind::Device => Some(Self::Device),
            _ => None,
        }
    }
}

/// Whether the path begins with the exact verbatim prefix `\\?\`.
pub fn is_verbatim_str(path: &str) -> (r: bool)
    ensures
        r == starts_verbatim(path@),
{
    let n = path.unicode_len();
    n >= 4 && path.get_char(0) == '\\' && path.get_char(1) == '\\' && path.get_char(2) == '?'
        && path.get_char(3) == '\\'
}

impl WinPathKind {
    /// Split the path into `WinPathKind` and the rest of the path.
    ///
    /// Note that this only splits off the smallest part needed to identify
    /// the path type. E.g. the UNC path `\\server\\share\\file.txt` will be
    /// split as `(WinPathKind::Unc, "server\\share\\file.txt")`.
    pub fn split_str(path: &str) -> (r: (WinPathKind, &str))
        ensures
            r.0 == spec_kind(path@),
            r.1@ == path@.skip(kind_prefix_chars(spec_kind(path@))),
    {
        let kind = WinPathKind::from_str(path);
        let n = path.unicode_len();
        let len = prefix_chars_of(kind);
        let rest = path.substring_char(len, n);
        proof {
            assert(rest@ =~= path@.skip(kind_prefix_chars(spec_kind(path@))));
        }
        (kind, rest)
    }

    /// The kind together with the prefix length in UTF-8 code units; for a
    /// drive letter that length follows the letter's encoded width.
    pub fn from_str_with_len(path: &str) -> (r: (WinPathKind, usize))
        ensures
            r.0 == spec_kind(path@),
            r.1 as int == spec_kind_utf8_len(spec_kind(path@)),
    {
        let kind = WinPathKind::from_str(path);
        let len = kind.utf8_len();
        (kind, len)
    }
}

/// A verbatim path with its prefix removed.
pub struct VerbatimStr<'a> {
    path: &'a str,
}

impl<'a> View for VerbatimStr<'a> {
    type V = Seq<char>;

    closed spec fn view(&self) -> Seq<char> {
        self.path@
    }
}

/// The Win32 kind a verbatim remainder denotes: a `UNC` marker names a
/// network path, a drive letter of at most two UTF-8 bytes followed by a
/// colon names a drive, and anything else is used as a device path.
pub open spec fn spec_verbatim_win32_kind(s: Seq<char>) -> Win32Absolute {
    if s.len() >= 3 && s[0] == 'U' && s[1] == 'N' && s[2] == 'C' && (s.len() == 3 || s[3]
        == '\\') {
        Win32Absolute::Unc
    } else if s.len() >= 2 && char_utf8_len(s[0]) <= 2 && s[1] == ':' && (s.len() == 2 || s[2]
        == '\\') {
        Win32Absolute::Drive(spec_drive_code(s[0]))
    } else {
        Win32Absolute::Device
    }
}

impl<'a> VerbatimStr<'a> {
    /// Split off the verbatim prefix, or refuse a path without one.
    pub fn new(path: &'a str) -> (r: Result<Self, ()>)
        ensures
            (r is Ok) == (spec_kind(path@) is Verbatim),
            r matches Ok(v) ==> v@ == path@.skip(4),
    {
        let (kind, rest) = WinPathKind::split_str(path);
        match kind {
            WinPathKind::Verbatim => Ok(Self { path: rest }),
            _ => Err(()),
        }
    }

    /// Get the Win32 type of the verbatim remainder.
    pub fn win32_kind(&self) -> (r: Win32Absolute)
        ensures
            r == spec_verbatim_win32_kind(self@),
    {
        let n = self.path.unicode_len();
        if n >= 3 && self.path.get_char(0) == 'U' && self.path.get_char(1) == 'N'
            && self.path.get_char(2) == 'C' && (n == 3 || self.path.get_char(3) == '\\') {
            return Win32Absolute::Unc;
        }
        if n >= 2 {
            let c = self.path.get_char(0);
            let u = c as u32;
            if u < 0x800 && self.path.get_char(1) == ':' && (n == 2 || self.path.get_char(2)
                == '\\') {
                return Win32Absolute::Drive(u as u16);
            }
        }
        proof {
            if spec_verbatim_win32_kind(self@) is Drive {
                assert((self@[0] as u32) < 0x800);
            }
        }
        Win32Absolute::Device
    }
}

impl Win32Absolute {
    /// Get the Win32 type of a verbatim path, with the remainder that a
    /// user-facing form keeps: a `UNC` marker is dropped.
    pub fn from_verbatim_str(path: &str) -> (r: Result<(Self, &str), ()>)
        ensures
            (r is Ok) == (spec_kind(path@) is Verbatim),
            r matches Ok(p) ==> p.0 == spec_verbatim_win32_kind(path@.skip(4)) && p.1@ == (
            if spec_verbatim_win32_kind(path@.skip(4)) is Unc {
                path@.skip(7)
            } else {
                path@.skip(4)
            }),
    {
        let verbatim = match VerbatimStr::new(path) {
            Ok(verbatim) => verbatim,
            Err(e) => {
                return Err(e);
            },
        };
        let kind = verbatim.win32_kind();
        let rest = match kind {
            Win32Absolute::Unc => {
                let n = verbatim.path.unicode_len();
                let r = verbatim.path.substring_char(3, n);
                proof {
                    assert(r@ =~= path@.skip(7));
                }
                r
            },
            _ => verbatim.path,
        };
        Ok((kind, rest))
    }
}

/// The prefix length, in characters, that identifies the kind alone.
fn prefix_chars_of(k: WinPathKind) -> (r: usize)
    ensures
        r as int == kind_prefix_chars(k),
{
    match k {
        WinPathKind::Drive(_) => 3,
        WinPathKind::Unc => 2,
        WinPathKind::Device => 4,
        WinPathKind::CurrentDirectoryRelative => 0,
        WinPathKind::Verbatim => 4,
        WinPathKind::DriveRelative(_) => 2,
        WinPathKind::RootRelative => 1,
    }
}

/// The index of the first separator at or after `from`, or the length when
/// none follows.
pub(crate) fn find_win_sep(s: &str, from: usize) -> (r: usize)
    requires
        from <= s@.len(),
    ensures
        from <= r <= s@.len(),
        forall|j: int| from <= j < r ==> !is_win_sep(s@[j]),
        r < s@.len() ==> is_win_sep(s@[r as int]),
{
    let n = s.unicode_len();
    let mut i = from;
    while i < n
        invariant
            from <= i <= n,
            n == s@.len(),
            forall|j: int| from <= j < i ==> !is_win_sep(s@[j]),
        decreases n - i,
    {
        if win_sep(s.get_char(i)) {
            return i;
        }
        i += 1;
    }
    n
}

/// Parse the server and share name from the path, in characters.
///
/// This assumes the leading `\\` has already been parsed: the result covers
/// `server\share`, or reaches the end of the string when the share or its
/// separator is missing.
pub fn str_unc_prefix_len(path: &str) -> (r: usize)
    ensures
        r as int == unc_extra_chars(path@),
{
    let n = path.unicode_len();
    let p1 = find_win_sep(path, 0);
    proof {
        lemma_find_first_is(path@, win_sep_fn(), p1 as int);
    }
    if p1 == n {
        return n;
    }
    let p2 = find_win_sep(path, p1 + 1);
    proof {
        let rest = path@.skip(p1 as int + 1);
        assert forall|j: int| 0 <= j < p2 - p1 - 1 implies !win_sep_fn()(rest[j]) by {
            assert(rest[j] == path@[p1 + 1 + j]);
        }
        if p2 < n {
            assert(rest[p2 - p1 - 1] == path@[p2 as int]);
        }
        lemma_find_first_is(rest, win_sep_fn(), p2 - p1 - 1);
    }
    if p2 == n {
        n
    } else {
        p2
    }
}

/// Parse the prefix from a path.
pub struct ParsedUtf8Path<'a> {
    path: &'a str,
    kind: WinPathKind,
    prefix_chars: usize,
}

impl<'a> View for ParsedUtf8Path<'a> {
    type V = Seq<char>;

    closed spec fn view(&self) -> Seq<char> {
        self.path@
    }
}

impl<'a> ParsedUtf8Path<'a> {
    #[verifier::type_invariant]
    spec fn wf(self) -> bool {
        &&& self.kind == spec_kind(self.path@)
        &&& self.prefix_chars as int == spec_prefix_chars(self.path@)
        &&& self.prefix_chars <= self.path@.len()
    }

    /// Parse a UTF-8 string into a prefix and subpath.
    pub fn from_utf8(path: &'a str) -> (r: ParsedUtf8Path<'a>)
        ensures
            r@ == path@,
    {
        let kind = WinPathKind::from_str(path);
        let prefix_chars = match kind {
            WinPathKind::Unc => {
                let n = path.unicode_len();
                let rest = path.substring_char(2, n);
                proof {
                    assert(rest@ =~= path@.skip(2));
                    lemma_prefix_chars_bounds(path@);
                }
                2 + str_unc_prefix_len(rest)
            },
            _ => {
                proof {
                    lemma_prefix_chars_bounds(path@);
                }
                prefix_chars_of(kind)
            },
        };
        Self { path, kind, prefix_chars }
    }

    /// Get the original, unparsed path.
    pub fn as_utf8(&self) -> (r: &'a str)
        ensures
            r@ == self@,
    {
        self.path
    }

    /// Get the type of path.
    pub fn kind(&self) -> (k: WinPathKind)
        ensures
            k == spec_kind(self@),
    {
        proof {
            use_type_invariant(self);
        }
        self.kind
    }

    /// The normalized text of the path's own prefix: separators become `\`,
    /// a device prefix keeps its marker, a UNC prefix is reduced to `\\`.
    pub fn normalized_str_kind(&self) -> (r: NormalizedStrKind)
        ensures
            r@ == spec_normal_prefix(self@),
    {
        proof {
            use_type_invariant(self);
            reveal_strlit("");
            reveal_strlit("\\");
            reveal_strlit("\\?\\");
            reveal_strlit("\\\\");
            reveal_strlit("\\\\?\\");
        }
        match self.kind {
            WinPathKind::DriveRelative(_) => {
                let s = String::from_str(self.path.substring_char(0, 2));
                proof {
                    assert(s@ =~= spec_normal_prefix(self@));
                }
                NormalizedStrKind { s }
            },
            WinPathKind::Drive(_) => {
                let mut s = String::from_str(self.path.substring_char(0, 2));
                s.append("\\");
                proof {
                    assert(s@ =~= spec_normal_prefix(self@));
                }
                NormalizedStrKind { s }
            },
            WinPathKind::Verbatim => {
                let s = String::from_str("\\\\?\\");
                proof {
                    assert(s@ =~= spec_normal_prefix(self@));
                }
                NormalizedStrKind { s }
            },
            WinPathKind::Device => {
                let mut s = String::from_str("\\\\");
                s.append(self.path.substring_char(2, 3));
                s.append("\\");
                proof {
                    assert(s@ =~= spec_normal_prefix(self@));
                }
                NormalizedStrKind { s }
            },
            WinPathKind::CurrentDirectoryRelative => {
                let s = String::new();
                proof {
                    assert(s@ =~= spec_normal_prefix(self@));
                }
                NormalizedStrKind { s }
            },
            WinPathKind::RootRelative => {
                let s = String::from_str("\\");
                proof {
                    assert(s@ =~= spec_normal_prefix(self@));
                }
                NormalizedStrKind { s }
            },
            WinPathKind::Unc => {
                let s = String::from_str("\\\\");
                proof {
                    assert(s@ =~= spec_normal_prefix(self@));
                }
                NormalizedStrKind { s }
            },
        }
    }

    /// Returns the (prefix, subpath) pair.
    pub fn parts(&self) -> (r: (&'a str, &'a str))
        ensures
            r.0@ == self@.take(spec_prefix_chars(self@)),
            r.1@ == self@.skip(spec_prefix_chars(self@)),
    {
        proof {
            use_type_invariant(self);
        }
        let n = self.path.unicode_len();
        let prefix = self.path.substring_char(0, self.prefix_chars);
        let rest = self.path.substring_char(self.prefix_chars, n);
        proof {
            assert(prefix@ =~= self@.take(spec_prefix_chars(self@)));
            assert(rest@ =~= self@.skip(spec_prefix_chars(self@)));
        }
        (prefix, rest)
    }
}

/// The normalized form of a path prefix, per kind.
pub open spec fn spec_normal_prefix(s: Seq<char>) -> Seq<char> {
    match spec_kind(s) {
        WinPathKind::DriveRelative(_) => s.take(2),
        WinPathKind::Drive(_) => s.take(2) + seq!['\\'],
        WinPathKind::Verbatim => seq!['\\', '\\', '?', '\\'],
        WinPathKind::Device => seq!['\\', '\\'] + seq![s[2]] + seq!['\\'],
        WinPathKind::CurrentDirectoryRelative => Seq::empty(),
        WinPathKind::RootRelative => seq!['\\'],
        WinPathKind::Unc => seq!['\\', '\\'],
    }
}

/// The normalized prefix text of a path.
pub struct NormalizedStrKind {
    s: String,
}

impl View for NormalizedStrKind {
    type V = Seq<char>;

    closed spec fn view(&self) -> Seq<char> {
        self.s@
    }
}

impl NormalizedStrKind {
    pub fn as_str(&self) -> (r: &str)
        ensures
            r@ == self@,
    {
        self.s.as_str()
    }
}

} // verus!
