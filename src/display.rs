use vstd::prelude::*;

use crate::packing::{decode_raw, decoded};

verus! {

/// What `String::from_utf8_lossy` makes of a byte sequence: the characters
/// of its valid UTF-8 sequences, with U+FFFD for each invalid one.
pub uninterp spec fn utf8_lossy(b: Seq<u8>) -> Seq<char>;

/// Relies on `String::from_utf8_lossy`: the result depends on the bytes alone,
/// no bytes give no characters, and bytes that are all ASCII are valid UTF-8
/// that stands for one character per byte, of the byte's code.
#[verifier::external_body]
fn lossy_text(b: &[u8]) -> (r: String)
    ensures
        r@ == utf8_lossy(b@),
        b@.len() == 0 ==> r@.len() == 0,
        (forall|k: int| 0 <= k < b@.len() ==> b@[k] < 0x80) ==> r@.len() == b@.len() && forall|
            k: int,
        |
            0 <= k < b@.len() ==> r@[k] as u32 == b@[k] as u32,
{
    String::from_utf8_lossy(b).into_owned()
}

/// Relies on `String::push`: the character is appended at the end.
pub assume_specification[ String::push ](s: &mut String, ch: char)
    ensures
        final(s)@ == old(s)@.push(ch),
;

/// `b` without its trailing zero bytes; a zero byte before a non-zero one stays.
pub open spec fn trim_zeros(b: Seq<u8>) -> Seq<u8>
    decreases b.len(),
{
    if b.len() > 0 && b.last() == 0 {
        trim_zeros(b.drop_last())
    } else {
        b
    }
}

/// A printable ASCII character (`'!'` to `'~'`) or the plain space.
pub open spec fn shown(c: char) -> bool {
    0x20 <= c as u32 <= 0x7e
}

/// The marker that stands for a character that cannot be shown.
pub open spec fn marker() -> char {
    '\u{FFFD}'
}

/// `s` with each character that cannot be shown replaced by one marker.
pub open spec fn sanitized(s: Seq<char>) -> Seq<char> {
    s.map_values(|c: char| if shown(c) { c } else { marker() })
}

/// The text shown for `text`: its packed bytes without trailing zeros, read
/// as UTF-8, then sanitized.
pub open spec fn display_of(text: Seq<char>) -> Seq<char> {
    sanitized(utf8_lossy(trim_zeros(decoded(text))))
}

/// Whether `c` can be shown as it is.
pub fn is_shown(c: char) -> (r: bool)
    ensures
        r == shown(c),
{
    let x = c as u32;
    (0x21 <= x && x <= 0x7e) || x == 0x20
}

/// Replaces every character of `s` that is neither printable ASCII nor a
/// space by one U+FFFD, and keeps the others.
pub fn sanitize(s: &str) -> (r: String)
    ensures
        r@ == sanitized(s@),
{
    let mut out = String::new();
    for c in it: s.chars()
        invariant
            it.seq() == s@,
            out@ == sanitized(s@.take(it.index() as int)),
    {
        let ghost i = it.index() as int;
        if is_shown(c) {
            out.push(c);
        } else {
            out.push('\u{FFFD}');
        }
        proof {
            assert(s@.take(i + 1) =~= s@.take(i).push(c));
            assert(out@ =~= sanitized(s@.take(i + 1)));
        }
    }
    proof {
        assert(s@.take(s@.len() as int) =~= s@);
    }
    out
}

/// Decodes `text` and turns the bytes into text that can be shown: trailing
/// zero bytes go, the rest is read as UTF-8 with U+FFFD for what is not
/// valid, and each character that cannot be shown becomes one U+FFFD.
pub fn decode_display(text: &str) -> (r: String)
    ensures
        r@ == display_of(text@),
        trim_zeros(decoded(text@)).len() == 0 ==> r@.len() == 0,
        text@.len() == 0 ==> r@.len() == 0,
        ({
            let b = trim_zeros(decoded(text@));
            (forall|k: int| 0 <= k < b.len() ==> b[k] < 0x80) ==> r@.len() == b.len() && forall|
                k: int,
            |
                0 <= k < b.len() ==> if 0x20 <= b[k] <= 0x7e {
                    r@[k] as u32 == b[k] as u32
                } else {
                    r@[k] == marker()
                }
        }),
{
    let mut values = decode_raw(text);
    let ghost raw = values@;
    while values.len() > 0 && values[values.len() - 1] == 0
        invariant
            trim_zeros(values@) == trim_zeros(raw),
        decreases values.len(),
    {
        values.pop();
    }
    let decoded_text = lossy_text(values.as_slice());
    let r = sanitize(decoded_text.as_str());
    proof {
        assert(values@ == trim_zeros(raw));
    }
    r
}

} // verus!
