use vstd::prelude::*;

use crate::packing::{decoded, raw_byte, sym};
use crate::symbols::{alphabet_char, lemma_alphabet_char};

verus! {

/// Byte `j` of `b`, 0 past its end.
pub open spec fn byte_at(b: Seq<u8>, j: int) -> int {
    if 0 <= j < b.len() {
        b[j] as int
    } else {
        0
    }
}

/// The 6-bit value of symbol `k` in the canonical encoding of `b`: every 3
/// bytes give 4 symbols, most significant bits first.
pub open spec fn encoded_value(b: Seq<u8>, k: int) -> int {
    let g = 3 * (k / 4);
    if k % 4 == 0 {
        byte_at(b, g) / 4
    } else if k % 4 == 1 {
        (byte_at(b, g) % 4) * 16 + byte_at(b, g + 1) / 16
    } else if k % 4 == 2 {
        (byte_at(b, g + 1) % 16) * 4 + byte_at(b, g + 2) / 64
    } else {
        byte_at(b, g + 2) % 64
    }
}

/// Symbol `k` of the canonical encoding of `b`: `=` where its group of
/// three bytes ends early, else the alphabet's character for its value.
pub open spec fn encoded_char(b: Seq<u8>, k: int) -> char {
    let g = 3 * (k / 4);
    if (k % 4 == 2 && g + 1 >= b.len()) || (k % 4 == 3 && g + 2 >= b.len()) {
        '='
    } else {
        alphabet_char(encoded_value(b, k) as u8)
    }
}

/// The canonical base64 encoding of `b`, padded with `=` to whole groups of four.
pub open spec fn encoded(b: Seq<u8>) -> Seq<char> {
    Seq::new((4 * ((b.len() + 2) / 3)) as nat, |k: int| encoded_char(b, k))
}

proof fn lemma_encoded_sym(b: Seq<u8>, k: int)
    requires
        0 <= k,
    ensures
        sym(encoded(b), k) == encoded_value(b, k),
{
    let g = 3 * (k / 4);
    let n = b.len() as int;
    if k < 4 * ((n + 2) / 3) {
        let padded = (k % 4 == 2 && g + 1 >= n) || (k % 4 == 3 && g + 2 >= n);
        if !padded {
            let v = encoded_value(b, k);
            assert(0 <= v < 64);
            lemma_alphabet_char(v as u8);
        }
    } else {
        assert(g >= n);
    }
}

/// Decoding the canonical encoding of a byte sequence gives the bytes back,
/// followed by the zero bytes that fill its last group of three.
pub proof fn lemma_round_trip(b: Seq<u8>)
    ensures
        decoded(encoded(b)).len() == 3 * ((b.len() + 2) / 3),
        decoded(encoded(b)).take(b.len() as int) == b,
        forall|j: int|
            b.len() <= j < decoded(encoded(b)).len() ==> #[trigger] decoded(encoded(b))[j] == 0,
{
    let e = encoded(b);
    let n = b.len() as int;
    assert forall|j: int| 0 <= j implies raw_byte(e, j) == byte_at(b, j) by {
        let g = 4 * (j / 3);
        lemma_encoded_sym(b, g);
        lemma_encoded_sym(b, g + 1);
        lemma_encoded_sym(b, g + 2);
        lemma_encoded_sym(b, g + 3);
        assert(g / 4 == j / 3 && g % 4 == 0);
        assert((g + 1) / 4 == j / 3 && (g + 1) % 4 == 1);
        assert((g + 2) / 4 == j / 3 && (g + 2) % 4 == 2);
        assert((g + 3) / 4 == j / 3 && (g + 3) % 4 == 3);
        let h = 3 * (j / 3);
        let b0 = byte_at(b, h);
        let b1 = byte_at(b, h + 1);
        let b2 = byte_at(b, h + 2);
        assert(0 <= b0 < 256 && 0 <= b1 < 256 && 0 <= b2 < 256);
        assert((b0 / 4) * 4 + ((b0 % 4) * 16 + b1 / 16) / 16 == b0);
        assert((((b0 % 4) * 16 + b1 / 16) % 16) * 16 + ((b1 % 16) * 4 + b2 / 64) / 4 == b1);
        assert((((b1 % 16) * 4 + b2 / 64) % 4) * 64 + b2 % 64 == b2);
    }
    assert((4 * ((n + 2) / 3) * 6 + 7) / 8 == 3 * ((n + 2) / 3));
    assert(decoded(e).take(n) =~= b);
}

} // verus!
