use vstd::prelude::*;

verus! {

/// The 6-bit value of a character of the base64 alphabet; `=` counts as
/// the value 0, and any other character has no value.
pub open spec fn symbol_value(c: char) -> Option<u8> {
    let x = c as u32;
    if 0x41 <= x <= 0x5a {
        Some((x - 0x41) as u8)
    } else if 0x61 <= x <= 0x7a {
        Some((x - 0x61 + 26) as u8)
    } else if 0x30 <= x <= 0x39 {
        Some((x - 0x30 + 52) as u8)
    } else if x == 0x2b {
        Some(62u8)
    } else if x == 0x2f {
        Some(63u8)
    } else if x == 0x3d {
        Some(0u8)
    } else {
        None
    }
}

/// The character that the canonical alphabet writes for the value `v`.
pub open spec fn alphabet_char(v: u8) -> char {
    if v < 26 {
        (v + 0x41) as u8 as char
    } else if v < 52 {
        (v - 26 + 0x61) as u8 as char
    } else if v < 62 {
        (v - 52 + 0x30) as u8 as char
    } else if v == 62 {
        '+'
    } else {
        '/'
    }
}

/// Every value below 64 is written by a character that reads back as it.
pub proof fn lemma_alphabet_char(v: u8)
    requires
        v < 64,
    ensures
        symbol_value(alphabet_char(v)) == Some(v),
{
}

/// The value of one input character, `None` where it lies outside the alphabet.
pub fn decode_single(c: char) -> (r: Option<u8>)
    ensures
        r == symbol_value(c),
        r matches Some(v) ==> v < 64,
{
    let x = c as u32;
    if 0x41 <= x && x <= 0x5a {
        Some((x - 0x41) as u8)
    } else if 0x61 <= x && x <= 0x7a {
        Some((x - 0x61 + 26) as u8)
    } else if 0x30 <= x && x <= 0x39 {
        Some((x - 0x30 + 52) as u8)
    } else if x == 0x2b {
        Some(62)
    } else if x == 0x2f {
        Some(63)
    } else if x == 0x3d {
        Some(0)
    } else {
        None
    }
}

} // verus!
