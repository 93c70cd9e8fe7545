//! Hexadecimal text: lowercase encoding of bytes, and decoding of digits of
//! either case.
use vstd::prelude::*;

verus! {

/// The lowercase hex digit for `d` (below 16).
pub open spec fn hex_char(d: u8) -> char {
    if d < 10 {
        ((48 + d) as u8) as char
    } else {
        ((87 + d) as u8) as char
    }
}

/// The value of a hex digit (`0-9`, `a-f`, `A-F`), or `None` for any other
/// character.
pub open spec fn hex_value(c: char) -> Option<u8> {
    let x = c as u32;
    if 48 <= x <= 57 {
        Some((x - 48) as u8)
    } else if 97 <= x <= 102 {
        Some((x - 87) as u8)
    } else if 65 <= x <= 70 {
        Some((x - 55) as u8)
    } else {
        None
    }
}

pub open spec fn is_hex_digit(c: char) -> bool {
    hex_value(c) is Some
}

/// Every character of `s` is a hex digit.
pub open spec fn all_hex_digits(s: Seq<char>) -> bool {
    forall|i: int| 0 <= i < s.len() ==> is_hex_digit(#[trigger] s[i])
}

/// Two lowercase digits per byte, high nibble first.
pub open spec fn hex_encode(b: Seq<u8>) -> Seq<char> {
    Seq::new(
        2 * b.len(),
        |i: int|
            if i % 2 == 0 {
                hex_char(b[i / 2] / 16)
            } else {
                hex_char(b[i / 2] % 16)
            },
    )
}

/// The byte that the digits `hi` and `lo` spell.
pub open spec fn hex_pair(hi: char, lo: char) -> u8 {
    (hex_value(hi)->0 * 16 + hex_value(lo)->0) as u8
}

/// The bytes that a string of hex digit pairs spells.
pub open spec fn hex_decode(s: Seq<char>) -> Seq<u8> {
    Seq::new(s.len() / 2, |i: int| hex_pair(s[2 * i], s[2 * i + 1]))
}

pub proof fn lemma_hex_char_value(d: u8)
    requires
        d < 16,
    ensures
        hex_value(hex_char(d)) == Some(d),
        hex_char(d) != 'x',
{
}

/// Encoded bytes are all hex digits, and decode back to the same bytes.
pub proof fn lemma_hex_decode_encode(b: Seq<u8>)
    ensures
        all_hex_digits(hex_encode(b)),
        hex_encode(b).len() == 2 * b.len(),
        hex_decode(hex_encode(b)) == b,
        b.len() > 0 ==> hex_encode(b)[1] != 'x',
{
    let e = hex_encode(b);
    assert forall|i: int| 0 <= i < e.len() implies is_hex_digit(#[trigger] e[i]) by {
        lemma_hex_char_value(b[i / 2] / 16);
        lemma_hex_char_value(b[i / 2] % 16);
    }
    assert forall|i: int| 0 <= i < b.len() implies #[trigger] hex_decode(e)[i] == b[i] by {
        assert((2 * i) / 2 == i);
        assert((2 * i + 1) / 2 == i);
        assert((2 * i) % 2 == 0);
        assert((2 * i + 1) % 2 == 1);
        lemma_hex_char_value(b[i] / 16);
        lemma_hex_char_value(b[i] % 16);
    }
    assert(hex_decode(e) =~= b);
    if b.len() > 0 {
        lemma_hex_char_value(b[0] % 16);
    }
}

/// The lowercase hex digit for a nibble.
pub fn hex_digit_char(d: u8) -> (c: char)
    requires
        d < 16,
    ensures
        c == hex_char(d),
{
    if d < 10 {
        (48 + d) as char
    } else {
        (87 + d) as char
    }
}

/// The value of a hex digit of either case, `None` for another character.
pub fn hex_digit_value(c: char) -> (r: Option<u8>)
    ensures
        r == hex_value(c),
{
    let x = c as u32;
    if 48 <= x && x <= 57 {
        Some((x - 48) as u8)
    } else if 97 <= x && x <= 102 {
        Some((x - 87) as u8)
    } else if 65 <= x && x <= 70 {
        Some((x - 55) as u8)
    } else {
        None
    }
}

} // verus!
