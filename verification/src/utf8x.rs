//! Executable UTF-8 encoding and decoding of single symbols, as the archive
//! header stores them, proved against the UTF-8 specification functions of
//! vstd (`encode_scalar`, `decode_first_scalar` and their kin).

use vstd::prelude::*;
use vstd::utf8::{encode_scalar, is_scalar, char_is_scalar, valid_first_scalar,
    decode_first_scalar, length_of_first_scalar};

verus! {

/// Relies on `char::from_u32` of core: returns the character with the given
/// scalar value, and `None` exactly on surrogates and values above
/// `0x10FFFF` — the values `is_scalar` excludes.
pub assume_specification[ char::from_u32 ](i: u32) -> (r: Option<char>)
    ensures
        match r {
            Some(c) => is_scalar(i) && c as u32 == i,
            None => !is_scalar(i),
        },
;

/// Appends the UTF-8 encoding of `c` (one to four bytes) to `out`.
pub fn encode_char_utf8(c: char, out: &mut Vec<u8>)
    requires
        old(out)@.len() + 4 <= usize::MAX,
    ensures
        final(out)@ == old(out)@ + encode_scalar(c as u32),
        final(out)@.len() <= old(out)@.len() + 4,
{
    proof {
        char_is_scalar(c);
    }
    let v = c as u32;
    if v <= 0x7F {
        out.push((v & 0x7F) as u8);
        proof {
            assert(out@ =~= old(out)@ + encode_scalar(c as u32));
        }
    } else if v <= 0x7FF {
        out.push(0xC0u8 | (((v >> 6u32) & 0x1F) as u8));
        out.push(0x80u8 | ((v & 0x3F) as u8));
        proof {
            assert(out@ =~= old(out)@ + encode_scalar(c as u32));
        }
    } else if v <= 0xFFFF {
        out.push(0xE0u8 | (((v >> 12u32) & 0x0F) as u8));
        out.push(0x80u8 | (((v >> 6u32) & 0x3F) as u8));
        out.push(0x80u8 | ((v & 0x3F) as u8));
        proof {
            assert(out@ =~= old(out)@ + encode_scalar(c as u32));
        }
    } else {
        out.push(0xF0u8 | (((v >> 18u32) & 0x7) as u8));
        out.push(0x80u8 | (((v >> 12u32) & 0x3F) as u8));
        out.push(0x80u8 | (((v >> 6u32) & 0x3F) as u8));
        out.push(0x80u8 | ((v & 0x3F) as u8));
        proof {
            assert(out@ =~= old(out)@ + encode_scalar(c as u32));
        }
    }
}

/// Decodes the UTF-8 symbol starting at `pos`, returning the character and
/// how many bytes its encoding takes. Returns `None` exactly when the bytes
/// at `pos` do not begin with a well-formed UTF-8 scalar encoding: a bad
/// leading byte, a missing or malformed continuation byte, an overlong
/// encoding, a surrogate, or a value beyond the Unicode range.
pub fn decode_char_utf8(bytes: &Vec<u8>, pos: usize) -> (r: Option<(char, usize)>)
    requires
        pos <= bytes@.len(),
    ensures
        match r {
            Some(p) => {
                &&& valid_first_scalar(bytes@.skip(pos as int))
                &&& 1 <= p.1 <= 4
                &&& pos + p.1 <= bytes@.len()
                &&& p.1 == length_of_first_scalar(bytes@.skip(pos as int))
                &&& p.0 as u32 == decode_first_scalar(bytes@.skip(pos as int))
            },
            None => !valid_first_scalar(bytes@.skip(pos as int)),
        },
{
    let ghost rest = bytes@.skip(pos as int);
    let n = bytes.len();
    if pos >= n {
        return None;
    }
    let b0 = bytes[pos];
    proof {
        assert(rest[0] == b0);
        assert(rest.len() == n - pos);
    }
    if b0 <= 0x7F {
        let cp = (b0 & 0x7F) as u32;
        match char::from_u32(cp) {
            Some(c) => Some((c, 1)),
            None => {
                proof {
                    assert(is_scalar(cp)) by (bit_vector)
                        requires
                            b0 <= 0x7F && cp == (b0 & 0x7F) as u32,
                    ;
                }
                None
            },
        }
    } else if 0xC0 <= b0 && b0 <= 0xDF {
        if n - pos < 2 {
            return None;
        }
        let b1 = bytes[pos + 1];
        proof {
            assert(rest[1] == b1);
        }
        if !(0x80 <= b1 && b1 <= 0xBF) {
            return None;
        }
        let cp = (((b0 & 0x1F) as u32) << 6u32) | ((b1 & 0x3F) as u32);
        if cp < 0x80 {
            return None;
        }
        proof {
            assert(is_scalar(cp)) by (bit_vector)
                requires
                    0xC0 <= b0 <= 0xDF && 0x80 <= cp && cp == (((b0 & 0x1F) as u32) << 6u32) | ((
                    b1 & 0x3F) as u32),
            ;
        }
        match char::from_u32(cp) {
            Some(c) => Some((c, 2)),
            None => None,
        }
    } else if 0xE0 <= b0 && b0 <= 0xEF {
        if n - pos < 3 {
            return None;
        }
        let b1 = bytes[pos + 1];
        let b2 = bytes[pos + 2];
        proof {
            assert(rest[1] == b1);
            assert(rest[2] == b2);
        }
        if !(0x80 <= b1 && b1 <= 0xBF) || !(0x80 <= b2 && b2 <= 0xBF) {
            return None;
        }
        let cp = (((b0 & 0x0F) as u32) << 12u32) | (((b1 & 0x3F) as u32) << 6u32) | ((b2
            & 0x3F) as u32);
        if cp < 0x800 {
            return None;
        }
        if 0xD800 <= cp && cp <= 0xDFFF {
            return None;
        }
        proof {
            assert(is_scalar(cp)) by (bit_vector)
                requires
                    0xE0 <= b0 <= 0xEF && 0x800 <= cp && !(0xD800 <= cp <= 0xDFFF) && cp == (((b0
                        & 0x0F) as u32) << 12u32) | (((b1 & 0x3F) as u32) << 6u32) | ((b2
                        & 0x3F) as u32),
            ;
        }
        match char::from_u32(cp) {
            Some(c) => Some((c, 3)),
            None => None,
        }
    } else if 0xF0 <= b0 && b0 <= 0xF7 {
        if n - pos < 4 {
            return None;
        }
        let b1 = bytes[pos + 1];
        let b2 = bytes[pos + 2];
        let b3 = bytes[pos + 3];
        proof {
            assert(rest[1] == b1);
            assert(rest[2] == b2);
            assert(rest[3] == b3);
        }
        if !(0x80 <= b1 && b1 <= 0xBF) || !(0x80 <= b2 && b2 <= 0xBF) || !(0x80 <= b3 && b3
            <= 0xBF) {
            return None;
        }
        let cp = (((b0 & 0x07) as u32) << 18u32) | (((b1 & 0x3F) as u32) << 12u32) | (((b2
            & 0x3F) as u32) << 6u32) | ((b3 & 0x3F) as u32);
        if cp < 0x10000 || cp > 0x10FFFF {
            return None;
        }
        match char::from_u32(cp) {
            Some(c) => Some((c, 4)),
            None => None,
        }
    } else {
        None
    }
}

} // verus!
