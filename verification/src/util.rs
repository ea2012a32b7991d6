//! Codec utilities: UTF-8 decode-length lookup and single-scalar
//! UTF-8 to UTF-16 conversion, plus small string helpers used throughout.

use vstd::prelude::*;
use vstd::slice::slice_subrange;

verus! {

/// The number of bytes in a UTF-8 encoded scalar, judged from its leading
/// byte: the count of leading one bits, except that zero leading ones (an
/// ASCII byte) also means one byte.
pub open spec fn spec_utf8_len(first_byte: u8) -> u8 {
    if first_byte < 0x80 {
        1
    } else if first_byte < 0xC0 {
        1
    } else if first_byte < 0xE0 {
        2
    } else if first_byte < 0xF0 {
        3
    } else if first_byte < 0xF8 {
        4
    } else if first_byte < 0xFC {
        5
    } else if first_byte < 0xFE {
        6
    } else if first_byte < 0xFF {
        7
    } else {
        8
    }
}

/// Get the length of a UTF-8 encoded scalar by examining the leading byte.
pub fn utf8_len(first_byte: u8) -> (r: u8)
    ensures
        r == spec_utf8_len(first_byte),
{
    if first_byte < 0x80 {
        1
    } else if first_byte < 0xC0 {
        1
    } else if first_byte < 0xE0 {
        2
    } else if first_byte < 0xF0 {
        3
    } else if first_byte < 0xF8 {
        4
    } else if first_byte < 0xFC {
        5
    } else if first_byte < 0xFE {
        6
    } else if first_byte < 0xFF {
        7
    } else {
        8
    }
}

/// Trim `len` bytes from the start, or all of them when fewer remain.
pub fn trim_start<'a>(bytes: &'a [u8], len: u8) -> (r: &'a [u8])
    ensures
        len as int <= bytes@.len() ==> r@ == bytes@.skip(len as int),
        len as int > bytes@.len() ==> r@ == Seq::<u8>::empty(),
{
    let n = bytes.len();
    if (len as usize) <= n {
        let r = slice_subrange(bytes, len as usize, n);
        proof {
            assert(r@ =~= bytes@.skip(len as int));
        }
        r
    } else {
        let r = slice_subrange(bytes, n, n);
        proof {
            assert(r@ =~= Seq::<u8>::empty());
        }
        r
    }
}

/// The UTF-16 code unit denoted by a UTF-8 encoded scalar from the basic
/// multilingual plane, decoded from its leading bytes.
pub open spec fn spec_bmp_utf8_to_utf16(bytes: Seq<u8>) -> u16
    recommends
        bytes.len() >= 1,
        1 <= spec_utf8_len(bytes[0]) <= 3,
        bytes.len() >= spec_utf8_len(bytes[0]),
{
    if spec_utf8_len(bytes[0]) >= 3 {
        (((bytes[0] & 0xF) as u16) << 12) | (((bytes[1] & 0x3F) as u16) << 6) | ((bytes[2]
            & 0x3F) as u16)
    } else if spec_utf8_len(bytes[0]) == 2 {
        (((bytes[0] & 0x1F) as u16) << 6) | ((bytes[1] & 0x3F) as u16)
    } else {
        bytes[0] as u16
    }
}

/// Convert a BMP UTF-8 encoded code point to a UTF-16 encoded code point.
pub fn bmp_utf8_to_utf16(bytes: &[u8]) -> (r: u16)
    requires
        bytes@.len() >= 1,
        1 <= spec_utf8_len(bytes@[0]) <= 3,
        bytes@.len() >= spec_utf8_len(bytes@[0]),
    ensures
        r == spec_bmp_utf8_to_utf16(bytes@),
{
    let b0 = *vstd::slice::slice_index_get(bytes, 0);
    let n = utf8_len(b0);
    if n >= 3 {
        let b1 = *vstd::slice::slice_index_get(bytes, 1);
        let b2 = *vstd::slice::slice_index_get(bytes, 2);
        (((b0 & 0xF) as u16) << 12) | (((b1 & 0x3F) as u16) << 6) | ((b2 & 0x3F) as u16)
    } else if n == 2 {
        let b1 = *vstd::slice::slice_index_get(bytes, 1);
        (((b0 & 0x1F) as u16) << 6) | ((b1 & 0x3F) as u16)
    } else {
        b0 as u16
    }
}

/// Relies on `String::push`: appends the one character to the end of the
/// string, leaving the rest unchanged.
#[verifier::external_body]
pub fn string_push_char(s: &mut String, c: char)
    ensures
        final(s)@ == old(s)@ + seq![c],
{
    s.push(c);
}

} // verus!
