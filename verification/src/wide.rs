//! The wide-character boundary: converting UTF-8 text to the
//! null-terminated UTF-16 buffers that the OS-level absolute-ify
//! collaborator consumes. A path holding an embedded null is rejected
//! before any such call could see it.

use vstd::prelude::*;
use vstd::string::StrSliceExecFns;

verus! {

/// The UTF-16 code units that encode one character: one unit for the basic
/// multilingual plane, a surrogate pair above it.
pub open spec fn spec_utf16_units(c: char) -> Seq<u16> {
    if (c as u32) < 0x10000 {
        seq![(c as u32) as u16]
    } else {
        seq![
            (0xD800 + (((c as u32) - 0x10000) / 0x400)) as u16,
            (0xDC00 + (((c as u32) - 0x10000) % 0x400)) as u16,
        ]
    }
}

/// The UTF-16 encoding of a character sequence.
pub open spec fn spec_utf16(s: Seq<char>) -> Seq<u16>
    decreases s.len(),
{
    if s.len() == 0 {
        Seq::empty()
    } else {
        spec_utf16(s.drop_last()) + spec_utf16_units(s.last())
    }
}

/// Encode a path as a null-terminated UTF-16 buffer, rejecting a path that
/// holds an embedded null character.
pub fn to_wide(path: &str) -> (r: Result<Vec<u16>, ()>)
    ensures
        (r is Ok) == (forall|i: int| 0 <= i < path@.len() ==> path@[i] != '\0'),
        r matches Ok(v) ==> v@ == spec_utf16(path@) + seq![0u16],
{
    let n = path.unicode_len();
    let mut v: Vec<u16> = Vec::new();
    let mut i: usize = 0;
    proof {
        assert(path@.take(0) =~= Seq::<char>::empty());
        assert(v@ =~= spec_utf16(path@.take(0)));
    }
    while i < n
        invariant
            i <= n,
            n == path@.len(),
            v@ == spec_utf16(path@.take(i as int)),
            forall|j: int| 0 <= j < i ==> path@[j] != '\0',
        decreases n - i,
    {
        let c = path.get_char(i);
        if c == '\0' {
            return Err(());
        }
        let u = c as u32;
        proof {
            assert(path@.take(i + 1).drop_last() =~= path@.take(i as int));
            assert(path@.take(i + 1).last() == c);
        }
        if u < 0x10000 {
            v.push(u as u16);
            proof {
                assert(v@ =~= spec_utf16(path@.take(i as int)) + spec_utf16_units(c));
            }
        } else {
            let x = u - 0x10000;
            let hi = 0xD800 + (x / 0x400);
            let lo = 0xDC00 + (x % 0x400);
            v.push(hi as u16);
            v.push(lo as u16);
            proof {
                assert(v@ =~= spec_utf16(path@.take(i as int)) + spec_utf16_units(c));
            }
        }
        i += 1;
    }
    proof {
        assert(path@.take(n as int) =~= path@);
    }
    v.push(0);
    Ok(v)
}

} // verus!
