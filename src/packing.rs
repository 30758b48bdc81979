use vstd::prelude::*;
use vstd::string::*;

use crate::symbols::{decode_single, symbol_value};

verus! {

/// The value that the character at position `k` contributes: 0 where the
/// character is outside the alphabet or `k` lies past the end.
pub open spec fn sym(t: Seq<char>, k: int) -> int {
    if 0 <= k < t.len() {
        match symbol_value(t[k]) {
            Some(v) => v as int,
            None => 0,
        }
    } else {
        0
    }
}

/// The number of bytes that `n` symbols of 6 bits fill: `ceil(6 * n / 8)`.
pub open spec fn raw_len(n: int) -> int {
    (n * 6 + 7) / 8
}

/// Byte `j` of the packed stream. Every 4 symbols fill 3 bytes, most
/// significant bits first.
pub open spec fn raw_byte(t: Seq<char>, j: int) -> int {
    let g = 4 * (j / 3);
    if j % 3 == 0 {
        sym(t, g) * 4 + sym(t, g + 1) / 16
    } else if j % 3 == 1 {
        (sym(t, g + 1) % 16) * 16 + sym(t, g + 2) / 4
    } else {
        (sym(t, g + 2) % 4) * 64 + sym(t, g + 3)
    }
}

/// The bytes that the symbols of `t` pack to.
pub open spec fn decoded(t: Seq<char>) -> Seq<u8> {
    Seq::new(raw_len(t.len() as int) as nat, |j: int| raw_byte(t, j) as u8)
}

/// The buffer of length `len` after the first `i` characters of `t` are packed.
pub open spec fn packed_prefix(t: Seq<char>, i: int, len: int) -> Seq<u8> {
    Seq::new(len as nat, |j: int| raw_byte(t.take(i), j) as u8)
}

proof fn lemma_sym_bound(t: Seq<char>, k: int)
    ensures
        0 <= sym(t, k) < 64,
{
}

proof fn lemma_raw_byte_bound(t: Seq<char>, j: int)
    requires
        0 <= j,
    ensures
        0 <= raw_byte(t, j) < 256,
{
    let g = 4 * (j / 3);
    lemma_sym_bound(t, g);
    lemma_sym_bound(t, g + 1);
    lemma_sym_bound(t, g + 2);
    lemma_sym_bound(t, g + 3);
}

proof fn lemma_take_sym(t: Seq<char>, i: int, k: int)
    requires
        0 <= i <= t.len(),
    ensures
        sym(t.take(i), k) == if k < i { sym(t, k) } else { 0 },
{
}

/// Which symbols byte `j` is made of: it reads symbol `k` only where this holds.
spec fn reads_symbol(j: int, k: int) -> bool {
    let g = 4 * (j / 3);
    if j % 3 == 0 {
        k == g || k == g + 1
    } else if j % 3 == 1 {
        k == g + 1 || k == g + 2
    } else {
        k == g + 2 || k == g + 3
    }
}

/// Packing character `i` after the first `i` changes only the bytes that read
/// it, and those as the bit cursor says.
proof fn lemma_pack_step(t: Seq<char>, i: int, j: int)
    requires
        0 <= i < t.len(),
        0 <= j,
    ensures
        !reads_symbol(j, i) ==> raw_byte(t.take(i + 1), j) == raw_byte(t.take(i), j),
        ({
            let p = t.take(i);
            let q = t.take(i + 1);
            let s = sym(t, i);
            let a = 3 * (i / 4);
            &&& i % 4 == 0 ==> raw_byte(p, a) == 0 && raw_byte(q, a) == s * 4
            &&& i % 4 == 1 ==> raw_byte(p, a) == sym(t, i - 1) * 4
                && raw_byte(q, a) == sym(t, i - 1) * 4 + s / 16
                && raw_byte(p, a + 1) == 0 && raw_byte(q, a + 1) == (s % 16) * 16
            &&& i % 4 == 2 ==> raw_byte(p, a + 1) == (sym(t, i - 1) % 16) * 16
                && raw_byte(q, a + 1) == (sym(t, i - 1) % 16) * 16 + s / 4
                && raw_byte(p, a + 2) == 0 && raw_byte(q, a + 2) == (s % 4) * 64
            &&& i % 4 == 3 ==> raw_byte(p, a + 2) == (sym(t, i - 1) % 4) * 64
                && raw_byte(q, a + 2) == (sym(t, i - 1) % 4) * 64 + s
        }),
{
    let g = 4 * (j / 3);
    let a = 3 * (i / 4);
    let h = 4 * (i / 4);
    assert forall|k: int| #![trigger sym(t.take(i), k)] true implies
        sym(t.take(i), k) == if k < i { sym(t, k) } else { 0 }
        && sym(t.take(i + 1), k) == if k < i + 1 { sym(t, k) } else { 0 } by {
        lemma_take_sym(t, i, k);
        lemma_take_sym(t, i + 1, k);
    }
    lemma_sym_bound(t, i);
    assert(a / 3 == i / 4 && a % 3 == 0);
    assert((a + 1) / 3 == i / 4 && (a + 1) % 3 == 1);
    assert((a + 2) / 3 == i / 4 && (a + 2) % 3 == 2);
    assert(sym(t.take(i), g) == sym(t.take(i + 1), g) || g == i);
    assert(sym(t.take(i), g + 1) == sym(t.take(i + 1), g + 1) || g + 1 == i);
    assert(sym(t.take(i), g + 2) == sym(t.take(i + 1), g + 2) || g + 2 == i);
    assert(sym(t.take(i), g + 3) == sym(t.take(i + 1), g + 3) || g + 3 == i);
    assert(sym(t.take(i), h) == sym(t.take(i + 1), h) || h == i);
    assert(sym(t.take(i), h + 1) == sym(t.take(i + 1), h + 1) || h + 1 == i);
    assert(sym(t.take(i), h + 2) == sym(t.take(i + 1), h + 2) || h + 2 == i);
    assert(sym(t.take(i), h + 3) == sym(t.take(i + 1), h + 3) || h + 3 == i);
}

/// Where the bit cursor stands before character `i`.
proof fn lemma_cursor(i: int, cb: int, rem: int)
    requires
        0 <= i,
        0 <= rem < 8,
        cb * 8 + rem == i * 6,
    ensures
        i % 4 == 0 ==> cb == 3 * (i / 4) && rem == 0,
        i % 4 == 1 ==> cb == 3 * (i / 4) && rem == 6,
        i % 4 == 2 ==> cb == 3 * (i / 4) + 1 && rem == 4,
        i % 4 == 3 ==> cb == 3 * (i / 4) + 2 && rem == 2,
{
}

/// Once the bytes that read character `i` hold their new values, the rest
/// of the buffer already agrees with the longer prefix.
proof fn lemma_pack_rest(
    t: Seq<char>,
    i: int,
    len: int,
    cb: int,
    rem: int,
    before: Seq<u8>,
    after: Seq<u8>,
)
    requires
        0 <= i < t.len(),
        0 <= rem < 8,
        cb * 8 + rem == i * 6,
        before == packed_prefix(t, i, len),
        after.len() == len,
        forall|j: int|
            0 <= j < len && j != cb && !(rem > 2 && j == cb + 1) ==> after[j] == before[j],
        forall|j: int|
            0 <= j < len && (j == cb || (rem > 2 && j == cb + 1)) ==> after[j] == raw_byte(
                t.take(i + 1),
                j,
            ) as u8,
    ensures
        after == packed_prefix(t, i + 1, len),
{
    lemma_cursor(i, cb, rem);
    assert forall|j: int| 0 <= j < len implies after[j] == raw_byte(t.take(i + 1), j) as u8 by {
        if j != cb && !(rem > 2 && j == cb + 1) {
            assert(!reads_symbol(j, i));
            lemma_pack_step(t, i, j);
        }
    }
    assert(after =~= packed_prefix(t, i + 1, len));
}

/// What OR does to the bytes of the buffer: it adds bits into places that
/// are still zero.
proof fn lemma_or_into_zero_bits(x: u8, v: u8)
    by (bit_vector)
    requires
        v < 64,
    ensures
        x == 0 ==> x | (v << 2u8) == v * 4,
        x % 4 == 0 ==> x | (v >> 4u8) == x + v / 16,
        x == 0 ==> x | (v << 4u8) == (v % 16) * 16,
        x % 16 == 0 ==> x | (v >> 2u8) == x + v / 4,
        x == 0 ==> x | (v << 6u8) == (v % 4) * 64,
        x % 64 == 0 ==> x | (v << 0u8) == x + v,
{
}

/// `=` and a character outside the alphabet pack alike: putting one in place
/// of the other, at any position, leaves the bytes unchanged.
pub proof fn lemma_padding_is_invalid(t: Seq<char>, k: int, c: char)
    requires
        0 <= k < t.len(),
        t[k] == '=',
        symbol_value(c) is None,
    ensures
        decoded(t.update(k, c)) == decoded(t),
{
    let u = t.update(k, c);
    assert forall|m: int| #![trigger sym(u, m)] true implies sym(u, m) == sym(t, m) by {}
    assert(decoded(u) =~= decoded(t));
}

/// Packs the symbols of `text` into bytes, 6 bits per character, left to
/// right. A character outside the alphabet leaves its 6 bits at zero and
/// still moves the bit cursor on.
pub fn decode_raw(text: &str) -> (r: Vec<u8>)
    ensures
        r@ == decoded(text@),
        r@.len() == (text@.len() * 6 + 7) / 8,
{
    let n = text.unicode_len();
    let len: usize = n / 4 * 3 + (n % 4 * 6 + 7) / 8;
    let mut values: Vec<u8> = vec![0u8; len];
    let ghost t = text@;
    assert(len == raw_len(n as int));
    proof {
        assert forall|j: int| 0 <= j < len implies values@[j] == raw_byte(t.take(0), j) as u8 by {
            assert(values@[j] == 0u8);
        }
        assert(values@ =~= packed_prefix(t, 0, len as int));
    }
    // The bit cursor, as the byte it points into and the bit within that byte.
    let mut current_byte: usize = 0;
    let mut bit_remainder: usize = 0;
    for c in it: text.chars()
        invariant
            it.seq() == t,
            t.len() == n,
            len == raw_len(n as int),
            values@ == packed_prefix(t, it.index() as int, len as int),
            current_byte * 8 + bit_remainder == it.index() * 6,
            bit_remainder < 8,
    {
        let ghost i = it.index() as int;
        let ghost before = values@;
        proof {
            assert(c == t[i]);
            assert(len * 8 >= n * 6);
            lemma_cursor(i, current_byte as int, bit_remainder as int);
            lemma_pack_step(t, i, 0);
            lemma_sym_bound(t, i);
            lemma_sym_bound(t, i - 1);
            lemma_raw_byte_bound(t.take(i), current_byte as int);
            lemma_raw_byte_bound(t.take(i), current_byte + 1);
            lemma_raw_byte_bound(t.take(i + 1), current_byte as int);
            lemma_raw_byte_bound(t.take(i + 1), current_byte + 1);
        }
        if let Some(index) = decode_single(c) {
            if bit_remainder > 2 {
                // the symbol straddles two bytes
                proof {
                    lemma_or_into_zero_bits(values@[current_byte as int], index);
                    lemma_or_into_zero_bits(values@[current_byte + 1], index);
                }
                let shift = bit_remainder - 2;
                values[current_byte] = values[current_byte] | (index >> shift as u8);
                let next_shift = 10 - bit_remainder;
                values[current_byte + 1] = values[current_byte + 1] | (index << next_shift as u8);
            } else {
                proof {
                    lemma_or_into_zero_bits(values@[current_byte as int], index);
                }
                let shift = 2 - bit_remainder;
                values[current_byte] = values[current_byte] | (index << shift as u8);
            }
        }
        proof {
            lemma_pack_rest(
                t,
                i,
                len as int,
                current_byte as int,
                bit_remainder as int,
                before,
                values@,
            );
        }
        bit_remainder = bit_remainder + 6;
        if bit_remainder >= 8 {
            bit_remainder = bit_remainder - 8;
            current_byte = current_byte + 1;
        }
    }
    proof {
        assert(t.take(n as int) =~= t);
    }
    values
}

} // verus!
