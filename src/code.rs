//! Bracketed four-digit hexadecimal identifiers such as `[8086]`.
use vstd::prelude::*;

use crate::text::chars_of;
use crate::text::string_of;

verus! {

/// Whether `c` is an ASCII hexadecimal digit.
pub open spec fn is_hex_digit(c: char) -> bool {
    ('0' <= c && c <= '9') || ('a' <= c && c <= 'f') || ('A' <= c && c <= 'F')
}

/// The value of the hexadecimal digit `c`.
pub open spec fn digit_value(c: char) -> nat {
    if '0' <= c && c <= '9' {
        (c as nat - '0' as nat) as nat
    } else if 'a' <= c && c <= 'f' {
        (c as nat - 'a' as nat + 10) as nat
    } else {
        (c as nat - 'A' as nat + 10) as nat
    }
}

/// The base-16 value of the digits `s`.
pub open spec fn hex_value(s: Seq<char>) -> nat
    decreases s.len(),
{
    if s.len() == 0 {
        0
    } else {
        hex_value(s.drop_last()) * 16 + digit_value(s.last())
    }
}

/// `s` is exactly four hexadecimal digits.
pub open spec fn is_code(s: Seq<char>) -> bool {
    s.len() == 4 && forall|i: int| 0 <= i < 4 ==> is_hex_digit(#[trigger] s[i])
}

/// What a decoded identifier holds: its two halves as text, and their values.
pub struct CodeView {
    pub hex: (Seq<char>, Seq<char>),
    pub int: (int, int),
}

/// The decoding of `s`, where `s` is a valid identifier.
pub open spec fn decode_spec(s: Seq<char>) -> Option<CodeView> {
    if is_code(s) {
        Some(
            CodeView {
                hex: (s.subrange(0, 2), s.subrange(2, 4)),
                int: (hex_value(s.subrange(0, 2)) as int, hex_value(s.subrange(2, 4)) as int),
            },
        )
    } else {
        None
    }
}

/// Why an identifier could not be decoded.
#[derive(Debug, Clone, Copy, PartialEq, Eq, Structural)]
pub enum CodeError {
    /// The text is not four characters long.
    Length,
    /// The text holds a character that is not a hexadecimal digit.
    NotHex,
}

/// A decoded identifier: the high and low byte, as hexadecimal text and as numbers.
#[derive(Debug)]
pub struct PciCode {
    pub hex: [String; 2],
    pub int: [u32; 2],
}

impl View for PciCode {
    type V = CodeView;

    open spec fn view(&self) -> CodeView {
        CodeView {
            hex: (self.hex[0]@, self.hex[1]@),
            int: (self.int[0] as int, self.int[1] as int),
        }
    }
}

/// The value of the hexadecimal digit `c`, if it is one.
pub fn hex_digit(c: char) -> (r: Option<u32>)
    ensures
        r is Some <==> is_hex_digit(c),
        r matches Some(d) ==> d == digit_value(c) && d < 16,
{
    if '0' <= c && c <= '9' {
        Some((c as u32) - ('0' as u32))
    } else if 'a' <= c && c <= 'f' {
        Some((c as u32) - ('a' as u32) + 10)
    } else if 'A' <= c && c <= 'F' {
        Some((c as u32) - ('A' as u32) + 10)
    } else {
        None
    }
}

proof fn lemma_hex_value_two(s: Seq<char>)
    requires
        s.len() == 2,
    ensures
        hex_value(s) == digit_value(s[0]) * 16 + digit_value(s[1]),
{
    let t = s.drop_last();
    assert(t.drop_last() =~= Seq::<char>::empty());
    assert(hex_value(t.drop_last()) == 0);
    assert(t.last() == s[0]);
    assert(hex_value(t) == digit_value(s[0]));
}

/// A valid identifier decodes; its two halves put together give it back,
/// and each number is the value of its half.
pub proof fn lemma_decode_halves(s: Seq<char>)
    requires
        is_code(s),
    ensures
        decode_spec(s) is Some,
        decode_spec(s)->0.hex.0 + decode_spec(s)->0.hex.1 == s,
        decode_spec(s)->0.hex.0.len() == 2,
        decode_spec(s)->0.int.0 == hex_value(decode_spec(s)->0.hex.0),
        decode_spec(s)->0.int.1 == hex_value(decode_spec(s)->0.hex.1),
        0 <= decode_spec(s)->0.int.0 < 256,
        0 <= decode_spec(s)->0.int.1 < 256,
{
    assert(s.subrange(0, 2) + s.subrange(2, 4) =~= s);
    lemma_hex_value_two(s.subrange(0, 2));
    lemma_hex_value_two(s.subrange(2, 4));
}

/// Text that is not four characters long, or that holds a character that is
/// not a hexadecimal digit, does not decode.
pub proof fn lemma_decode_rejects(s: Seq<char>)
    requires
        s.len() != 4 || exists|i: int| 0 <= i < s.len() && !is_hex_digit(#[trigger] s[i]),
    ensures
        decode_spec(s) is None,
{
}

impl PciCode {
    /// Decodes the identifier held in `v` from `lo` up to `hi`.
    pub fn from_range(v: &Vec<char>, lo: usize, hi: usize) -> (r: Result<PciCode, CodeError>)
        requires
            lo <= hi <= v.len(),
        ensures
            match r {
                Ok(c) => decode_spec(v@.subrange(lo as int, hi as int)) == Some(c@),
                Err(e) => decode_spec(v@.subrange(lo as int, hi as int)) is None && (e
                    == CodeError::Length <==> hi - lo != 4),
            },
    {
        let ghost s = v@.subrange(lo as int, hi as int);
        if hi - lo != 4 {
            return Err(CodeError::Length);
        }
        let d0 = hex_digit(v[lo]);
        let d1 = hex_digit(v[lo + 1]);
        let d2 = hex_digit(v[lo + 2]);
        let d3 = hex_digit(v[lo + 3]);
        match (d0, d1, d2, d3) {
            (Some(a), Some(b), Some(c), Some(d)) => {
                let left = string_of(v, lo, lo + 2);
                let right = string_of(v, lo + 2, hi);
                proof {
                    assert(s[0] == v@[lo as int] && s[1] == v@[lo + 1] && s[2] == v@[lo + 2]
                        && s[3] == v@[lo + 3]);
                    assert(is_code(s));
                    assert(s.subrange(0, 2) =~= v@.subrange(lo as int, lo + 2));
                    assert(s.subrange(2, 4) =~= v@.subrange(lo + 2, hi as int));
                    lemma_hex_value_two(s.subrange(0, 2));
                    lemma_hex_value_two(s.subrange(2, 4));
                }
                Ok(PciCode { hex: [left, right], int: [a * 16 + b, c * 16 + d] })
            },
            _ => {
                assert(!is_hex_digit(s[0]) || !is_hex_digit(s[1]) || !is_hex_digit(s[2])
                    || !is_hex_digit(s[3]));
                Err(CodeError::NotHex)
            },
        }
    }

    /// Decodes a four-digit hexadecimal identifier such as `8086` into its
    /// two bytes; fails unless `code` is exactly four hexadecimal digits.
    pub fn try_from_code(code: &str) -> (r: Result<PciCode, CodeError>)
        ensures
            match r {
                Ok(c) => decode_spec(code@) == Some(c@),
                Err(e) => decode_spec(code@) is None && (e == CodeError::Length <==> code@.len()
                    != 4),
            },
    {
        let v = chars_of(code);
        let r = PciCode::from_range(&v, 0, v.len());
        assert(v@.subrange(0, v@.len() as int) =~= code@);
        r
    }
}

} // verus!
