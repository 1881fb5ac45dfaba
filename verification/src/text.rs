//! Text: UTF-8, white space, decimal numbers, splitting at a character.

use vstd::prelude::*;
use vstd::utf8::*;

verus! {

/// `String::from_utf8` takes exactly the valid UTF-8 and gives the text that it encodes.
#[verifier::external_body]
pub(crate) fn string_from_utf8(bytes: Vec<u8>) -> (r: Option<String>)
    ensures
        match r {
            Some(s) => valid_utf8(bytes@) && s@ == decode_utf8(bytes@),
            None => !valid_utf8(bytes@),
        },
{
    String::from_utf8(bytes).ok()
}

/// Whether `c` has the Unicode property White_Space.
pub open spec fn is_white_space(c: char) -> bool {
    let u = c as u32;
    ||| 0x09 <= u <= 0x0d
    ||| u == 0x20
    ||| u == 0x85
    ||| u == 0xa0
    ||| u == 0x1680
    ||| 0x2000 <= u <= 0x200a
    ||| u == 0x2028
    ||| u == 0x2029
    ||| u == 0x202f
    ||| u == 0x205f
    ||| u == 0x3000
}

/// `s` without white space at either end.
pub open spec fn trimmed(s: Seq<char>) -> Seq<char>
    decreases s.len(),
{
    if s.len() == 0 {
        s
    } else if is_white_space(s.first()) {
        trimmed(s.drop_first())
    } else if is_white_space(s.last()) {
        trimmed(s.drop_last())
    } else {
        s
    }
}

/// The first index of `c` in `s`, or the length of `s` if it does not occur.
pub open spec fn find(s: Seq<char>, c: char) -> int
    decreases s.len(),
{
    if s.len() == 0 || s.first() == c {
        0
    } else {
        1 + find(s.drop_first(), c)
    }
}

/// The last index of `c` in `s`, or -1 if it does not occur.
pub open spec fn rfind(s: Seq<char>, c: char) -> int
    decreases s.len(),
{
    if s.len() == 0 {
        -1
    } else if s.last() == c {
        s.len() - 1
    } else {
        rfind(s.drop_last(), c)
    }
}

/// The parts of `s` between the occurrences of `c`.
pub open spec fn split(s: Seq<char>, c: char) -> Seq<Seq<char>>
    decreases s.len(),
    via split_decreases
{
    let i = find(s, c);
    if i < s.len() {
        seq![s.take(i)] + split(s.skip(i + 1), c)
    } else {
        seq![s]
    }
}

#[via_fn]
proof fn split_decreases(s: Seq<char>, c: char) {
    lemma_find(s, c);
}

pub proof fn lemma_find(s: Seq<char>, c: char)
    ensures
        0 <= find(s, c) <= s.len(),
        find(s, c) < s.len() ==> s[find(s, c)] == c,
        forall|i: int| 0 <= i < find(s, c) ==> (#[trigger] s[i]) != c,
    decreases s.len(),
{
    if s.len() > 0 && s.first() != c {
        lemma_find(s.drop_first(), c);
        assert forall|i: int| 0 <= i < find(s, c) implies (#[trigger] s[i]) != c by {
            if i > 0 {
                assert(s[i] == s.drop_first()[i - 1]);
            }
        }
    }
}

/// An index before which `c` does not occur, and at which it does or the text ends, is the one
/// that `find` gives.
proof fn lemma_find_unique(s: Seq<char>, c: char, k: int)
    requires
        0 <= k <= s.len(),
        k < s.len() ==> s[k] == c,
        forall|i: int| 0 <= i < k ==> (#[trigger] s[i]) != c,
    ensures
        find(s, c) == k,
{
    lemma_find(s, c);
    let f = find(s, c);
    if f < k {
        assert(s[f] != c);
    } else if k < f {
        assert(s[k] != c);
    }
}

pub proof fn lemma_rfind(s: Seq<char>, c: char)
    ensures
        -1 <= rfind(s, c) < s.len(),
        rfind(s, c) >= 0 ==> s[rfind(s, c)] == c,
        forall|i: int| rfind(s, c) < i < s.len() ==> (#[trigger] s[i]) != c,
    decreases s.len(),
{
    if s.len() > 0 && s.last() != c {
        lemma_rfind(s.drop_last(), c);
        assert forall|i: int| rfind(s, c) < i < s.len() implies (#[trigger] s[i]) != c by {
            if i < s.len() - 1 {
                assert(s[i] == s.drop_last()[i]);
            }
        }
    }
}

pub open spec fn is_digit(c: char) -> bool {
    '0' <= c <= '9'
}

/// The number that the digits `s` spell.
pub open spec fn digits_value(s: Seq<char>) -> nat
    decreases s.len(),
{
    if s.len() == 0 {
        0
    } else {
        digits_value(s.drop_last()) * 10 + (s.last() as u32 - '0' as u32) as nat
    }
}

/// `s` without the plus sign that it may begin with.
pub open spec fn unsigned(s: Seq<char>) -> Seq<char> {
    if s.len() > 0 && s[0] == '+' {
        s.skip(1)
    } else {
        s
    }
}

/// The number that `s` spells in decimal, if it is one: at least one digit and nothing else
/// but a plus sign in front.
pub open spec fn decimal(s: Seq<char>) -> Option<nat> {
    let d = unsigned(s);
    if d.len() > 0 && (forall|i: int| 0 <= i < d.len() ==> is_digit(#[trigger] d[i])) {
        Some(digits_value(d))
    } else {
        None
    }
}

/// The decimal number that `s` spells, if it is one that is at most `max`.
pub open spec fn decimal_within(s: Seq<char>, max: nat) -> Option<nat> {
    match decimal(s) {
        Some(n) => if n <= max {
            Some(n)
        } else {
            None
        },
        None => None,
    }
}

/// `n` in decimal.
pub open spec fn decimal_digits(n: nat) -> Seq<char>
    decreases n,
{
    if n < 10 {
        seq![(0x30 + n) as char]
    } else {
        decimal_digits(n / 10).push((0x30 + n % 10) as char)
    }
}

/// Reading a decimal number gives back what was written.
pub proof fn law_decimal_round_trip(n: nat)
    ensures
        decimal(decimal_digits(n)) == Some(n),
{
    lemma_decimal_digits(n);
}

pub proof fn lemma_decimal_digits(n: nat)
    ensures
        decimal_digits(n).len() > 0,
        forall|i: int|
            0 <= i < decimal_digits(n).len() ==> is_digit(#[trigger] decimal_digits(n)[i]),
        digits_value(decimal_digits(n)) == n,
    decreases n,
{
    let s = decimal_digits(n);
    if n < 10 {
        assert(s.drop_last() =~= Seq::empty());
        assert(digits_value(s.drop_last()) == 0);
    } else {
        lemma_decimal_digits(n / 10);
        assert(s.drop_last() =~= decimal_digits(n / 10));
    }
}

proof fn lemma_digits_value_grows(s: Seq<char>, k: int)
    requires
        0 <= k <= s.len(),
    ensures
        digits_value(s.take(k)) <= digits_value(s),
    decreases s.len() - k,
{
    if k < s.len() {
        assert(s.take(k + 1).drop_last() =~= s.take(k));
        lemma_digits_value_grows(s, k + 1);
    } else {
        assert(s.take(k) =~= s);
    }
}

/// ASCII bytes are valid UTF-8, one character each.
pub proof fn lemma_ascii_utf8(bytes: Seq<u8>)
    requires
        forall|i: int| 0 <= i < bytes.len() ==> #[trigger] bytes[i] < 128,
    ensures
        valid_utf8(bytes),
        decode_utf8(bytes) == Seq::new(bytes.len(), |i: int| bytes[i] as char),
{
    let chars = Seq::new(bytes.len(), |i: int| bytes[i] as char);
    assert(is_ascii_chars(chars));
    is_ascii_chars_encode_utf8(chars);
    assert(encode_utf8(chars) =~= bytes);
    encode_utf8_valid_utf8(chars);
    encode_utf8_decode_utf8(chars);
}

/// The characters whose numbers the bytes are.
pub open spec fn ascii_text(bytes: Seq<u8>) -> Seq<char> {
    Seq::new(bytes.len(), |i: int| bytes[i] as char)
}

/// The characters whose numbers the bytes are.
pub fn ascii_chars(bytes: &[u8]) -> (v: Vec<char>)
    ensures
        v@ == ascii_text(bytes@),
{
    let mut v: Vec<char> = Vec::new();
    let mut i: usize = 0;
    while i < bytes.len()
        invariant
            i <= bytes@.len(),
            v@ =~= ascii_text(bytes@.take(i as int)),
        decreases bytes@.len() - i,
    {
        v.push(bytes[i] as char);
        i += 1;
    }
    assert(bytes@.take(i as int) =~= bytes@);
    v
}

/// Whether `c` is white space.
pub fn white_space(c: char) -> (b: bool)
    ensures
        b == is_white_space(c),
{
    let u: u32 = c as u32;
    (0x09 <= u && u <= 0x0d) || u == 0x20 || u == 0x85 || u == 0xa0 || u == 0x1680 || (0x2000 <= u
        && u <= 0x200a) || u == 0x2028 || u == 0x2029 || u == 0x202f || u == 0x205f || u == 0x3000
}

/// The characters of `s`.
pub fn chars_of(s: &str) -> (v: Vec<char>)
    ensures
        v@ == s@,
{
    let mut v: Vec<char> = Vec::new();
    for c in it: s.chars()
        invariant
            it.seq() == s@,
            v@ == s@.take(it.index()),
    {
        v.push(c);
        assert(v@ =~= s@.take(it.index() + 1));
    }
    assert(s@.take(s@.len() as int) =~= s@);
    v
}

/// `s` without white space at either end.
pub fn trim(s: &[char]) -> (r: &[char])
    ensures
        r@ == trimmed(s@),
{
    let mut a: usize = 0;
    let mut b: usize = s.len();
    assert(s@.subrange(0, b as int) =~= s@);
    while a < b && white_space(s[a])
        invariant
            a <= b == s@.len(),
            trimmed(s@.subrange(a as int, b as int)) == trimmed(s@),
        decreases b - a,
    {
        assert(s@.subrange(a as int, b as int).drop_first() =~= s@.subrange(a + 1, b as int));
        a += 1;
    }
    while a < b && white_space(s[b - 1])
        invariant
            a <= b <= s@.len(),
            a < b ==> !is_white_space(s@[a as int]),
            trimmed(s@.subrange(a as int, b as int)) == trimmed(s@),
        decreases b - a,
    {
        assert(s@.subrange(a as int, b as int).drop_last() =~= s@.subrange(a as int, b - 1));
        b -= 1;
    }
    vstd::slice::slice_subrange(s, a, b)
}

/// The first index of `c` in `s`, or the length of `s` if it does not occur.
pub fn find_char(s: &[char], c: char) -> (n: usize)
    ensures
        n == find(s@, c),
        n <= s@.len(),
{
    let mut i: usize = 0;
    while i < s.len() && s[i] != c
        invariant
            i <= s@.len(),
            forall|j: int| 0 <= j < i ==> (#[trigger] s@[j]) != c,
        decreases s@.len() - i,
    {
        i += 1;
    }
    proof {
        lemma_find_unique(s@, c, i as int);
    }
    i
}

/// The last index of `c` in `s`, if it occurs.
pub fn rfind_char(s: &[char], c: char) -> (r: Option<usize>)
    ensures
        match r {
            Some(n) => n == rfind(s@, c) < s@.len(),
            None => rfind(s@, c) == -1,
        },
{
    let mut i: usize = s.len();
    assert(s@.take(i as int) =~= s@);
    while i > 0
        invariant
            i <= s@.len(),
            rfind(s@.take(i as int), c) == rfind(s@, c),
        decreases i,
    {
        if s[i - 1] == c {
            return Some(i - 1);
        }
        assert(s@.take(i as int).drop_last() =~= s@.take(i - 1));
        i -= 1;
    }
    None
}

/// The decimal number that `s` spells, if it is one that is at most `max`.
pub fn parse_decimal(s: &[char], max: u64) -> (r: Option<u64>)
    ensures
        match r {
            Some(n) => decimal_within(s@, max as nat) == Some(n as nat),
            None => decimal_within(s@, max as nat) is None,
        },
{
    let start: usize = if s.len() > 0 && s[0] == '+' {
        1
    } else {
        0
    };
    let ghost d = unsigned(s@);
    assert(d =~= s@.skip(start as int));
    if start == s.len() {
        return None;
    }
    let mut val: u64 = 0;
    let mut i: usize = start;
    assert(d.take(0) =~= Seq::empty());
    while i < s.len()
        invariant
            start <= i <= s@.len(),
            d == unsigned(s@),
            d == s@.skip(start as int),
            d.len() > 0,
            forall|j: int| 0 <= j < i - start ==> is_digit(#[trigger] d[j]),
            val == digits_value(d.take(i - start)),
            val <= max,
        decreases s@.len() - i,
    {
        let c: char = s[i];
        assert(c == d[i - start]);
        assert(d.take(i - start + 1).drop_last() =~= d.take(i - start));
        if c < '0' || c > '9' {
            return None;
        }
        let next: u128 = val as u128 * 10 + (c as u32 - '0' as u32) as u128;
        if next > max as u128 {
            proof {
                lemma_digits_value_grows(d, i - start + 1);
            }
            return None;
        }
        val = next as u64;
        i += 1;
    }
    assert(d.take(i - start) =~= d);
    Some(val)
}

fn decimal_ascii(n: u64) -> (v: Vec<u8>)
    ensures
        v@.len() == decimal_digits(n as nat).len(),
        forall|i: int|
            0 <= i < v@.len() ==> #[trigger] v@[i] < 128 && v@[i] as char == decimal_digits(n as nat)[i],
    decreases n,
{
    if n < 10 {
        let mut v: Vec<u8> = Vec::new();
        v.push(0x30 + n as u8);
        v
    } else {
        let mut v = decimal_ascii(n / 10);
        v.push(0x30 + (n % 10) as u8);
        v
    }
}

/// `n` in decimal.
pub fn decimal_string(n: u64) -> (s: String)
    ensures
        s@ == decimal_digits(n as nat),
{
    let v = decimal_ascii(n);
    proof {
        lemma_ascii_utf8(v@);
        assert(decode_utf8(v@) =~= decimal_digits(n as nat));
    }
    string_from_utf8(v).unwrap()
}

/// The first occurrence is found, and if there is none, the end.
pub proof fn law_find(a: Seq<char>, c: char, b: Seq<char>)
    requires
        !a.contains(c),
    ensures
        find(a, c) == a.len(),
        find(a + seq![c] + b, c) == a.len(),
{
    assert forall|i: int| 0 <= i < a.len() implies (#[trigger] a[i]) != c by {
        assert(a.contains(a[i]));
    }
    let s = a + seq![c] + b;
    assert forall|i: int| 0 <= i < a.len() implies (#[trigger] s[i]) != c by {
        assert(s[i] == a[i]);
    }
    lemma_find_unique(a, c, a.len() as int);
    lemma_find_unique(s, c, a.len() as int);
}

/// The last occurrence is found, if there is one.
pub proof fn law_rfind(a: Seq<char>, c: char, b: Seq<char>)
    requires
        !b.contains(c),
    ensures
        rfind(b, c) == -1,
        rfind(a + seq![c] + b, c) == a.len(),
{
    let s = a + seq![c] + b;
    lemma_rfind(b, c);
    lemma_rfind(s, c);
    if rfind(b, c) >= 0 {
        assert(b.contains(b[rfind(b, c)]));
    }
    let r = rfind(s, c);
    if r > a.len() {
        assert(s[r] == b[r - a.len() - 1]);
        assert(b.contains(c));
    } else if r < a.len() {
        assert(s[a.len() as int] == c);
    }
}

/// Text without the separator is one part; otherwise the first part is what stands before the
/// first separator, and the others are the parts of what stands behind it.
pub proof fn law_split(a: Seq<char>, c: char, b: Seq<char>)
    requires
        !a.contains(c),
    ensures
        split(a, c) == seq![a],
        split(a + seq![c] + b, c) == seq![a] + split(b, c),
{
    let s = a + seq![c] + b;
    law_find(a, c, b);
    assert(s.take(a.len() as int) =~= a);
    assert(s.skip((a.len() + 1) as int) =~= b);
}

/// Trimming takes the white space off both ends, however much there is, and nothing else.
pub proof fn law_trimmed(a: Seq<char>, t: Seq<char>, b: Seq<char>)
    requires
        forall|i: int| 0 <= i < a.len() ==> is_white_space(#[trigger] a[i]),
        forall|i: int| 0 <= i < b.len() ==> is_white_space(#[trigger] b[i]),
        t.len() > 0 ==> !is_white_space(t.first()) && !is_white_space(t.last()),
    ensures
        trimmed(a + t + b) == t,
    decreases a.len() + b.len(),
{
    let s = a + t + b;
    if a.len() > 0 {
        assert(s.first() == a[0]);
        assert(s.drop_first() =~= a.drop_first() + t + b);
        assert forall|i: int| 0 <= i < a.len() - 1 implies is_white_space(
            #[trigger] a.drop_first()[i],
        ) by {
            assert(a.drop_first()[i] == a[i + 1]);
        }
        law_trimmed(a.drop_first(), t, b);
    } else if b.len() > 0 && t.len() > 0 {
        assert(s.first() == t.first());
        assert(s.last() == b[b.len() - 1]);
        assert(s.drop_last() =~= a + t + b.drop_last());
        assert forall|i: int| 0 <= i < b.len() - 1 implies is_white_space(
            #[trigger] b.drop_last()[i],
        ) by {
            assert(b.drop_last()[i] == b[i]);
        }
        law_trimmed(a, t, b.drop_last());
    } else if b.len() > 0 {
        assert(s.first() == b[0]);
        assert(s.drop_first() =~= a + t + b.drop_first());
        assert forall|i: int| 0 <= i < b.len() - 1 implies is_white_space(
            #[trigger] b.drop_first()[i],
        ) by {
            assert(b.drop_first()[i] == b[i + 1]);
        }
        law_trimmed(a, t, b.drop_first());
    } else {
        assert(s =~= t);
    }
}

/// White space is, of ASCII, the space and the characters from tab to carriage return; and
/// beyond ASCII the spaces and separators that Unicode calls so.
pub proof fn law_white_space(c: char)
    ensures
        c as u32 <= 0x7f ==> (is_white_space(c) <==> c == ' ' || '\t' <= c <= '\r'),
        0x80 <= c as u32 <= 0x1fff ==> (is_white_space(c) <==> c as u32 == 0x85 || c as u32 == 0xa0
            || c as u32 == 0x1680),
        0x2000 <= c as u32 <= 0x2fff ==> (is_white_space(c) <==> c as u32 <= 0x200a || c as u32
            == 0x2028 || c as u32 == 0x2029 || c as u32 == 0x202f || c as u32 == 0x205f),
        c as u32 >= 0x3000 ==> (is_white_space(c) <==> c as u32 == 0x3000),
{
}

/// Digits are read from left to right in base ten.
pub proof fn law_digits_value(s: Seq<char>, c: char)
    requires
        '0' <= c <= '9',
    ensures
        digits_value(Seq::empty()) == 0,
        digits_value(s.push(c)) == 10 * digits_value(s) + (c as u32 - 0x30),
{
    assert(s.push(c).drop_last() =~= s);
}

/// Digits are a number, with or without a plus sign in front, and nothing else is: not the empty
/// text, not the sign alone, and nothing with another character anywhere.
pub proof fn law_decimal(s: Seq<char>, max: nat)
    ensures
        ({
            let plus = seq!['+'] + s;
            let digits = s.len() > 0 && forall|i: int|
                0 <= i < s.len() ==> '0' <= #[trigger] s[i] <= '9';
            &&& decimal(plus) == if digits {
                Some(digits_value(s))
            } else {
                None
            }
            &&& s.len() == 0 || s[0] != '+' ==> decimal(s) == if digits {
                Some(digits_value(s))
            } else {
                None
            }
            &&& decimal(s) is Some && decimal(s)->0 <= max ==> decimal_within(s, max) == decimal(s)
            &&& decimal(s) is None || decimal(s)->0 > max ==> decimal_within(s, max) is None
        }),
{
    let plus = seq!['+'] + s;
    assert(plus.skip(1) =~= s);
    if s.len() > 0 && forall|i: int| 0 <= i < s.len() ==> '0' <= #[trigger] s[i] <= '9' {
        assert forall|i: int| 0 <= i < s.len() implies is_digit(#[trigger] s[i]) by {}
    } else if s.len() > 0 {
        let i = choose|i: int| 0 <= i < s.len() && !('0' <= #[trigger] s[i] <= '9');
        assert(!is_digit(s[i]));
    }
}

/// A number is written in digits alone, without a leading zero unless it is zero.
pub proof fn law_decimal_digits_are_plain(n: nat)
    ensures
        forall|i: int|
            0 <= i < decimal_digits(n).len() ==> '0' <= #[trigger] decimal_digits(n)[i] <= '9',
        n == 0 ==> decimal_digits(n).len() == 1,
        n > 0 ==> decimal_digits(n)[0] != '0',
        digits_value(decimal_digits(n)) == n,
    decreases n,
{
    lemma_decimal_digits(n);
    assert forall|i: int| 0 <= i < decimal_digits(n).len() implies '0'
        <= #[trigger] decimal_digits(n)[i] <= '9' by {
        assert(is_digit(decimal_digits(n)[i]));
    }
    if n >= 10 {
        law_decimal_digits_are_plain(n / 10);
        lemma_decimal_digits(n / 10);
    }
}

/// Each byte stands for the character of that number.
pub proof fn law_ascii_text(bytes: Seq<u8>, i: int)
    requires
        0 <= i < bytes.len(),
    ensures
        ascii_text(bytes).len() == bytes.len(),
        ascii_text(bytes)[i] == bytes[i] as char,
{
}

} // verus!
