//! Decisions of the Win32 path conversions, taken apart from the OS calls
//! that surround them: which user-facing form a verbatim path may collapse
//! to, and which verbatim prefix an absolute wide path receives. The
//! absolute-ify collaborator itself stays outside this crate; these
//! functions judge its inputs and outputs.

use vstd::prelude::*;
use vstd::string::{StrSliceExecFns, StringExecFns};

use crate::kind::{spec_kind, spec_verbatim_win32_kind, Win32Absolute};

verus! {

/// A UTF-16 backslash.
pub const WSEP: u16 = 92;

/// A UTF-16 colon.
pub const WCOLON: u16 = 58;

/// A UTF-16 question mark.
pub const WQUERY: u16 = 63;

/// A UTF-16 dot.
pub const WDOT: u16 = 46;

/// The user-facing form a verbatim path collapses to, before the caller
/// checks it against the absolute-ify collaborator: the drive form drops
/// the verbatim prefix whole, a device form keeps the `\\.\` marker, and a
/// network form regains one or two backslashes. A path that is not
/// verbatim has no candidate.
pub open spec fn spec_winuser_candidate(s: Seq<char>) -> Option<Seq<char>> {
    if !(spec_kind(s) is Verbatim) {
        None
    } else {
        let kind = spec_verbatim_win32_kind(s.skip(4));
        if kind is Drive {
            Some(s.skip(4))
        } else if kind is Device {
            Some(seq!['\\', '\\', '.', '\\'] + s.skip(4))
        } else {
            let sub = s.skip(7);
            if sub.len() == 0 {
                Some(seq!['\\', '\\'] + sub)
            } else {
                Some(seq!['\\'] + sub)
            }
        }
    }
}

/// Compute the Win32 candidate of a verbatim path.
pub fn to_winuser_candidate(path: &str) -> (r: Option<String>)
    ensures
        (r is Some) == (spec_winuser_candidate(path@) is Some),
        r matches Some(c) ==> Some(c@) == spec_winuser_candidate(path@),
{
    proof {
        reveal_strlit("\\\\.\\");
        reveal_strlit("\\\\");
        reveal_strlit("\\");
    }
    let (kind, subpath) = match Win32Absolute::from_verbatim_str(path) {
        Ok(result) => result,
        Err(_) => {
            return None;
        },
    };
    match kind {
        Win32Absolute::Drive(_) => Some(String::from_str(subpath)),
        Win32Absolute::Device => {
            let mut out = String::from_str("\\\\.\\");
            out.append(subpath);
            proof {
                assert(out@ =~= seq!['\\', '\\', '.', '\\'] + path@.skip(4));
            }
            Some(out)
        },
        Win32Absolute::Unc => {
            let mut out = if subpath.unicode_len() == 0 {
                String::from_str("\\\\")
            } else {
                String::from_str("\\")
            };
            out.append(subpath);
            proof {
                if path@.skip(7).len() == 0 {
                    assert(out@ =~= seq!['\\', '\\'] + path@.skip(7));
                } else {
                    assert(out@ =~= seq!['\\'] + path@.skip(7));
                }
            }
            Some(out)
        },
    }
}

/// One trailing backslash unit removed, when the original path did not end
/// with a separator of its own.
pub open spec fn spec_wide_trim(a: Seq<u16>, ends_with_sep: bool) -> Seq<u16> {
    if !ends_with_sep && a.len() > 0 && a.last() == WSEP {
        a.drop_last()
    } else {
        a
    }
}

/// The verbatim prefix units `\\?\`.
pub open spec fn spec_wide_verbatim() -> Seq<u16> {
    seq![WSEP, WSEP, WQUERY, WSEP]
}

/// The verbatim network prefix units `\\?\UNC\`.
pub open spec fn spec_wide_unc() -> Seq<u16> {
    seq![WSEP, WSEP, WQUERY, WSEP, 85u16, 78u16, 67u16, WSEP]
}

/// The verbatim form of an absolute wide path: a drive path gains the
/// verbatim prefix, a device path trades its marker for it, paths already
/// verbatim stay as they are, a network path gains the `UNC` form, and
/// anything else is left alone. A trailing backslash that the original
/// path did not have is dropped.
pub open spec fn spec_verbatim_from_wide(a: Seq<u16>, ends_with_sep: bool) -> Seq<u16> {
    if a.len() >= 3 && a[1] == WCOLON && a[2] == WSEP {
        spec_wide_verbatim() + spec_wide_trim(a, ends_with_sep)
    } else if a.len() >= 4 && a[0] == WSEP && a[1] == WSEP && a[2] == WDOT && a[3] == WSEP {
        spec_wide_verbatim() + spec_wide_trim(a.skip(4), ends_with_sep)
    } else if a.len() >= 4 && ((a[0] == WSEP && a[1] == WSEP && a[2] == WQUERY && a[3] == WSEP) || (
    a[0] == WSEP && a[1] == WQUERY && a[2] == WQUERY && a[3] == WSEP)) {
        spec_wide_trim(a, ends_with_sep)
    } else if a.len() >= 2 && a[0] == WSEP && a[1] == WSEP {
        spec_wide_unc() + spec_wide_trim(a.skip(2), ends_with_sep)
    } else {
        spec_wide_trim(a, ends_with_sep)
    }
}

/// Copy the units of `a` from `from` on, dropping one trailing backslash
/// when the original path did not end with a separator.
fn push_wide_trimmed(out: &mut Vec<u16>, a: &Vec<u16>, from: usize, ends_with_sep: bool)
    requires
        from <= a@.len(),
    ensures
        final(out)@ == old(out)@ + spec_wide_trim(a@.skip(from as int), ends_with_sep),
{
    let mut stop = a.len();
    if !ends_with_sep && stop > from && a[stop - 1] == WSEP {
        stop = stop - 1;
        proof {
            assert(a@.subrange(from as int, stop as int) =~= spec_wide_trim(
                a@.skip(from as int),
                ends_with_sep,
            ));
        }
    } else {
        proof {
            assert(a@.subrange(from as int, stop as int) =~= spec_wide_trim(
                a@.skip(from as int),
                ends_with_sep,
            ));
        }
    }
    let ghost base = out@;
    let mut i = from;
    while i < stop
        invariant
            from <= i <= stop <= a@.len(),
            out@ == base + a@.subrange(from as int, i as int),
        decreases stop - i,
    {
        out.push(a[i]);
        proof {
            assert(out@ =~= base + a@.subrange(from as int, i + 1));
        }
        i += 1;
    }
}

/// Decide the verbatim form of an absolute wide path.
pub fn verbatim_from_wide(absolute: &Vec<u16>, ends_with_sep: bool) -> (r: Vec<u16>)
    ensures
        r@ == spec_verbatim_from_wide(absolute@, ends_with_sep),
{
    let n = absolute.len();
    let mut out: Vec<u16> = Vec::new();
    if n >= 3 && absolute[1] == WCOLON && absolute[2] == WSEP {
        out.push(WSEP);
        out.push(WSEP);
        out.push(WQUERY);
        out.push(WSEP);
        proof {
            assert(out@ =~= spec_wide_verbatim());
        }
        push_wide_trimmed(&mut out, absolute, 0, ends_with_sep);
        proof {
            assert(absolute@.skip(0) =~= absolute@);
        }
    } else if n >= 4 && absolute[0] == WSEP && absolute[1] == WSEP && absolute[2] == WDOT
        && absolute[3] == WSEP {
        out.push(WSEP);
        out.push(WSEP);
        out.push(WQUERY);
        out.push(WSEP);
        proof {
            assert(out@ =~= spec_wide_verbatim());
        }
        push_wide_trimmed(&mut out, absolute, 4, ends_with_sep);
    } else if n >= 4 && ((absolute[0] == WSEP && absolute[1] == WSEP && absolute[2] == WQUERY
        && absolute[3] == WSEP) || (absolute[0] == WSEP && absolute[1] == WQUERY && absolute[2]
        == WQUERY && absolute[3] == WSEP)) {
        push_wide_trimmed(&mut out, absolute, 0, ends_with_sep);
        proof {
            assert(absolute@.skip(0) =~= absolute@);
            assert(out@ =~= spec_wide_trim(absolute@, ends_with_sep));
        }
    } else if n >= 2 && absolute[0] == WSEP && absolute[1] == WSEP {
        out.push(WSEP);
        out.push(WSEP);
        out.push(WQUERY);
        out.push(WSEP);
        out.push(85);
        out.push(78);
        out.push(67);
        out.push(WSEP);
        proof {
            assert(out@ =~= spec_wide_unc());
        }
        push_wide_trimmed(&mut out, absolute, 2, ends_with_sep);
    } else {
        push_wide_trimmed(&mut out, absolute, 0, ends_with_sep);
        proof {
            assert(absolute@.skip(0) =~= absolute@);
            assert(out@ =~= spec_wide_trim(absolute@, ends_with_sep));
        }
    }
    out
}

/// The next move of the exact verbatim conversion: a path whose prefix
/// already fixes its root is rewritten in place, while a root-relative or
/// fully relative path first needs a base from the absolute-ify
/// collaborator.
pub enum VerbatimExactStep {
    /// The exact verbatim form is decided.
    Done(Vec<u16>),
    /// The path hangs from the current drive's root: resolve `\` first and
    /// try again against that base.
    NeedRootBase,
    /// The path hangs from the current directory: resolve `.\` first and
    /// try again against that base.
    NeedCwdBase,
}

/// Whether the prefix of a wide path already fixes its root, so that the
/// exact verbatim conversion can be decided in place.
pub open spec fn spec_exact_is_fixed(a: Seq<u16>) -> bool {
    ||| (a.len() >= 3 && a[1] == WCOLON && a[2] == WSEP)
    ||| (a.len() >= 4 && a[0] == WSEP && a[1] == WSEP && (a[2] == WDOT || a[2] == WQUERY) && a[3]
        == WSEP)
    ||| (a.len() >= 4 && a[0] == WSEP && a[1] == WQUERY && a[2] == WQUERY && a[3] == WSEP)
    ||| (a.len() >= 2 && a[0] == WSEP && a[1] == WSEP)
}

/// What the exact verbatim conversion decides for a wide path whose prefix
/// fixes its root.
pub open spec fn spec_verbatim_exact_done(a: Seq<u16>) -> Seq<u16> {
    if a.len() >= 3 && a[1] == WCOLON && a[2] == WSEP {
        spec_wide_verbatim() + a
    } else if a.len() >= 4 && a[0] == WSEP && a[1] == WSEP && a[2] == WDOT && a[3] == WSEP {
        a.update(2, WQUERY)
    } else if a.len() >= 4 && ((a[0] == WSEP && a[1] == WSEP && a[2] == WQUERY && a[3] == WSEP) || (
    a[0] == WSEP && a[1] == WQUERY && a[2] == WQUERY && a[3] == WSEP)) {
        a
    } else {
        spec_wide_unc() + a.skip(2)
    }
}

/// Decide the next move of the exact verbatim conversion.
pub fn verbatim_exact_step(path: &Vec<u16>) -> (r: VerbatimExactStep)
    ensures
        (r is Done) == spec_exact_is_fixed(path@),
        r matches VerbatimExactStep::Done(v) ==> v@ == spec_verbatim_exact_done(path@),
        (r is NeedRootBase) == (!spec_exact_is_fixed(path@) && path@.len() >= 1 && path@[0]
            == WSEP),
        (r is NeedCwdBase) == (!spec_exact_is_fixed(path@) && !(path@.len() >= 1 && path@[0]
            == WSEP)),
{
    let n = path.len();
    if n >= 3 && path[1] == WCOLON && path[2] == WSEP {
        let mut out: Vec<u16> = Vec::new();
        out.push(WSEP);
        out.push(WSEP);
        out.push(WQUERY);
        out.push(WSEP);
        proof {
            assert(out@ =~= spec_wide_verbatim());
        }
        push_wide_trimmed(&mut out, path, 0, true);
        proof {
            assert(path@.skip(0) =~= path@);
        }
        VerbatimExactStep::Done(out)
    } else if n >= 4 && path[0] == WSEP && path[1] == WSEP && path[2] == WDOT && path[3] == WSEP {
        let mut out: Vec<u16> = Vec::new();
        push_wide_trimmed(&mut out, path, 0, true);
        proof {
            assert(path@.skip(0) =~= path@);
        }
        out.set(2, WQUERY);
        VerbatimExactStep::Done(out)
    } else if n >= 4 && ((path[0] == WSEP && path[1] == WSEP && path[2] == WQUERY && path[3]
        == WSEP) || (path[0] == WSEP && path[1] == WQUERY && path[2] == WQUERY && path[3]
        == WSEP)) {
        let mut out: Vec<u16> = Vec::new();
        push_wide_trimmed(&mut out, path, 0, true);
        proof {
            assert(path@.skip(0) =~= path@);
        }
        VerbatimExactStep::Done(out)
    } else if n >= 2 && path[0] == WSEP && path[1] == WSEP {
        let mut out: Vec<u16> = Vec::new();
        out.push(WSEP);
        out.push(WSEP);
        out.push(WQUERY);
        out.push(WSEP);
        out.push(85);
        out.push(78);
        out.push(67);
        out.push(WSEP);
        proof {
            assert(out@ =~= spec_wide_unc());
        }
        push_wide_trimmed(&mut out, path, 2, true);
        VerbatimExactStep::Done(out)
    } else if n >= 1 && path[0] == WSEP {
        VerbatimExactStep::NeedRootBase
    } else {
        VerbatimExactStep::NeedCwdBase
    }
}

} // verus!
