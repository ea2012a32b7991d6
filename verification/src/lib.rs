//! Lexical path classification and normalization for Windows-style and
//! generic separator-delimited paths, operating purely on text.
//!
//! The crate classifies an arbitrary string into one of the Windows
//! path-prefix kinds, lexically cleans a path the way the Windows filesystem
//! layer does (resolving `.` and `..`, trimming trailing dots and spaces,
//! repairing broken UNC prefixes), and offers a separator-parameterized
//! pure-path component model shared by POSIX-style and Windows-style paths.
//! No operation touches the filesystem.

pub mod cleaner;
pub mod kind;
pub mod model;
pub mod posix;
pub mod pure;
pub mod raw;
mod strops;
pub mod util;
pub mod wide;
pub mod win32;
pub mod windows;

pub use cleaner::clean;
pub use raw::{trim_full_path, StrPath, StrPathBuffer};
pub use kind::{is_verbatim_str, str_unc_prefix_len, NormalizedStrKind, ParsedUtf8Path, Win32Absolute,
    Win32Relative, WinPathKind};
pub use util::{bmp_utf8_to_utf16, trim_start, utf8_len};
pub use wide::to_wide;
pub use windows::{Win32Prefix, WindowsComponent, WindowsPath};
