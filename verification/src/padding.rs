//! Random padding, which hides the lengths of requests.

use vstd::prelude::*;

use crate::random;
use crate::text;

verus! {

/// Whether `b` is an ASCII letter or digit.
pub open spec fn is_alphanumeric(b: u8) -> bool {
    ||| 0x61 <= b <= 0x7a
    ||| 0x41 <= b <= 0x5a
    ||| 0x30 <= b <= 0x39
}

/// Whether `s` can serve as padding of a length in `[min, max)`.
pub open spec fn is_padding(s: Seq<u8>, min: int, max: int) -> bool {
    &&& min <= s.len() < max
    &&& forall|i: int| 0 <= i < s.len() ==> is_alphanumeric(#[trigger] s[i])
}

/// The `i`-th character of the padding alphabet: `a` to `z`, `A` to `Z`, `0` to `9`.
pub open spec fn alphabet(i: int) -> int {
    if i < 26 {
        0x61 + i
    } else if i < 52 {
        0x41 + (i - 26)
    } else {
        0x30 + (i - 52)
    }
}

/// The padding character that the number `i` selects.
pub fn padding_char(i: u64) -> (b: u8)
    requires
        i < 62,
    ensures
        b == alphabet(i as int),
        is_alphanumeric(b),
{
    if i < 26 {
        0x61 + i as u8
    } else if i < 52 {
        0x41 + (i - 26) as u8
    } else {
        0x30 + (i - 52) as u8
    }
}

/// Random alphanumeric padding of length in `[min, max)`.
pub fn random_padding(min: usize, max: usize) -> (pad: Vec<u8>)
    requires
        min < max,
    ensures
        is_padding(pad@, min as int, max as int),
{
    let n: usize = min + random::random_between(0, (max - min - 1) as u64) as usize;
    let mut pad: Vec<u8> = Vec::new();
    while pad.len() < n
        invariant
            pad@.len() <= n,
            forall|i: int| 0 <= i < pad@.len() ==> is_alphanumeric(#[trigger] pad@[i]),
        decreases n - pad@.len(),
    {
        pad.push(padding_char(random::random_between(0, 61)));
    }
    pad
}

/// Auth request padding, of a length in `[256, 2048)`.
pub fn auth_request_padding() -> (s: String)
    ensures
        is_padding(vstd::utf8::encode_utf8(s@), 256, 2048),
        s@.len() == vstd::utf8::encode_utf8(s@).len(),
{
    let pad = random_padding(256, 2048);
    proof {
        text::lemma_ascii_utf8(pad@);
        vstd::utf8::decode_utf8_encode_utf8(pad@);
    }
    text::string_from_utf8(pad).unwrap()
}

/// TCP request padding, of a length in `[64, 512)`.
pub fn tcp_request_padding() -> (pad: Vec<u8>)
    ensures
        is_padding(pad@, 64, 512),
{
    random_padding(64, 512)
}

/// Padding is made of ASCII letters and digits, at least `min` and fewer than `max` of them.
pub proof fn law_padding(s: Seq<u8>, min: int, max: int)
    ensures
        is_padding(s, min, max) <==> min <= s.len() && s.len() < max && forall|i: int|
            0 <= i < s.len() ==> (0x30 <= #[trigger] s[i] <= 0x39) || (0x41 <= s[i] <= 0x5a) || (0x61
                <= s[i] <= 0x7a),
{
    if is_padding(s, min, max) {
        assert forall|i: int| 0 <= i < s.len() implies (0x30 <= #[trigger] s[i] <= 0x39) || (0x41
            <= s[i] <= 0x5a) || (0x61 <= s[i] <= 0x7a) by {
            assert(is_alphanumeric(s[i]));
        }
    }
}

/// Every letter and digit is in the alphabet, once and at its own number.
pub proof fn law_alphabet(i: int, j: int)
    requires
        0 <= i < 62,
        0 <= j < 62,
    ensures
        i < 26 ==> alphabet(i) == 'a' as int + i,
        26 <= i < 52 ==> alphabet(i) == 'A' as int + (i - 26),
        52 <= i ==> alphabet(i) == '0' as int + (i - 52),
        alphabet(i) == alphabet(j) ==> i == j,
        is_alphanumeric(alphabet(i) as u8),
{
}

} // verus!
