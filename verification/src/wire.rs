//! Big-endian integers and QUIC variable-length integers.

use vstd::prelude::*;

verus! {

/// Longest message or address that a length field may announce.
pub const MAX_MESSAGE_LENGTH: u64 = 2048;

/// Longest padding that a length field may announce.
pub const MAX_PADDING_LENGTH: u64 = 4096;

/// Largest QUIC datagram frame that is advertised.
pub const MAX_DATAGRAM_FRAME_SIZE: u64 = 1200;

/// Largest reassembled UDP payload buffer.
pub const MAX_UDP_SIZE: usize = 4096;

/// The low `len` bytes of `n`, most significant first.
pub open spec fn be_bytes(n: nat, len: nat) -> Seq<u8>
    decreases len,
{
    if len == 0 {
        Seq::empty()
    } else {
        be_bytes(n / 256, (len - 1) as nat).push((n % 256) as u8)
    }
}

/// The number that `s` spells, most significant byte first.
pub open spec fn be_value(s: Seq<u8>) -> nat
    decreases s.len(),
{
    if s.len() == 0 {
        0
    } else {
        be_value(s.drop_last()) * 256 + s.last() as nat
    }
}

/// How many bytes the varint encoding of `v` takes.
pub open spec fn varint_width(v: nat) -> nat {
    if v <= 63 {
        1
    } else if v <= 16383 {
        2
    } else if v <= 1_073_741_823 {
        4
    } else {
        8
    }
}

/// `v` with the two length bits set on top of its `varint_width(v)` bytes.
pub open spec fn varint_word(v: u64) -> u64 {
    if v <= 63 {
        v
    } else if v <= 16383 {
        v | 0x4000
    } else if v <= 1_073_741_823 {
        v | 0x8000_0000
    } else {
        v | 0xc000_0000_0000_0000
    }
}

/// The varint encoding of `v`.
pub open spec fn varint_bytes(v: u64) -> Seq<u8> {
    be_bytes(varint_word(v) as nat, varint_width(v as nat))
}

/// How many bytes a varint has whose first byte is `first`.
pub open spec fn varint_span(first: u8) -> nat {
    if first < 0x40 {
        1
    } else if first < 0x80 {
        2
    } else if first < 0xc0 {
        4
    } else {
        8
    }
}

/// Whether `s` begins with a complete varint.
pub open spec fn has_varint(s: Seq<u8>) -> bool {
    s.len() > 0 && s.len() >= varint_span(s[0])
}

/// The value of the varint that `s` begins with.
pub open spec fn varint_value(s: Seq<u8>) -> nat {
    be_value(seq![(s[0] % 64) as u8] + s.subrange(1, varint_span(s[0]) as int))
}

/// The varint at the front of `s`: its value and how many bytes it takes.
pub open spec fn varint_front(s: Seq<u8>) -> Option<(nat, nat)> {
    if has_varint(s) {
        Some((varint_value(s), varint_span(s[0])))
    } else {
        None
    }
}

pub proof fn lemma_be_bytes_len(n: nat, len: nat)
    ensures
        be_bytes(n, len).len() == len,
    decreases len,
{
    if len > 0 {
        lemma_be_bytes_len(n / 256, (len - 1) as nat);
    }
}

/// Reading a big-endian integer gives back what was written.
pub proof fn law_be_round_trip(n: nat, len: nat)
    requires
        n < vstd::arithmetic::power::pow(256, len),
    ensures
        be_value(be_bytes(n, len)) == n,
    decreases len,
{
    reveal(vstd::arithmetic::power::pow);
    if len > 0 {
        let m = (len - 1) as nat;
        vstd::arithmetic::power::lemma_pow_positive(256, m);
        assert(n / 256 < vstd::arithmetic::power::pow(256, m)) by (nonlinear_arith)
            requires
                n < 256 * vstd::arithmetic::power::pow(256, m),
        ;
        law_be_round_trip(n / 256, m);
        let s = be_bytes(n, len);
        lemma_be_bytes_len(n, len);
        assert(s.drop_last() =~= be_bytes(n / 256, m));
    }
}

proof fn lemma_be_bytes_step(w: u64, len: nat)
    requires
        len > 0,
    ensures
        be_bytes(w as nat, len) == be_bytes((w >> 8) as nat, (len - 1) as nat).push(w as u8),
{
    assert(w / 256 == w >> 8) by (bit_vector);
    assert((w % 256) as u8 == w as u8) by (bit_vector);
}

/// Two, four and eight bytes of a word, spelled out.
pub proof fn lemma_be_bytes_spelled(w: u64)
    ensures
        be_bytes(w as nat, 1) == seq![w as u8],
        be_bytes(w as nat, 2) == seq![(w >> 8) as u8, w as u8],
        be_bytes(w as nat, 4) == seq![
            (w >> 24) as u8,
            (w >> 16) as u8,
            (w >> 8) as u8,
            w as u8,
        ],
        be_bytes(w as nat, 8) == seq![
            (w >> 56) as u8,
            (w >> 48) as u8,
            (w >> 40) as u8,
            (w >> 32) as u8,
            (w >> 24) as u8,
            (w >> 16) as u8,
            (w >> 8) as u8,
            w as u8,
        ],
{
    assert forall|x: u64, len: nat| len > 0 implies #[trigger] be_bytes(x as nat, len) == be_bytes(
        (x >> 8) as nat,
        (len - 1) as nat,
    ).push(x as u8) by {
        lemma_be_bytes_step(x, len);
    }
    assert(w >> 8 >> 8 == w >> 16 && w >> 16 >> 8 == w >> 24 && w >> 24 >> 8 == w >> 32 && w >> 32
        >> 8 == w >> 40 && w >> 40 >> 8 == w >> 48 && w >> 48 >> 8 == w >> 56) by (bit_vector);
    let w1 = w >> 8;
    let w2 = w >> 16;
    let w3 = w >> 24;
    let w4 = w >> 32;
    let w5 = w >> 40;
    let w6 = w >> 48;
    let w7 = w >> 56;
    assert(be_bytes((w7 >> 8) as nat, 0) =~= Seq::<u8>::empty());
    assert(be_bytes((w3 >> 8) as nat, 0) =~= Seq::<u8>::empty());
    assert(be_bytes((w1 >> 8) as nat, 0) =~= Seq::<u8>::empty());
    assert(be_bytes(w1 as nat, 0) =~= Seq::<u8>::empty());
    assert(be_bytes(w as nat, 1) =~= seq![w as u8]);
    assert(be_bytes(w1 as nat, 1) =~= seq![w1 as u8]);
    assert(be_bytes(w as nat, 2) =~= seq![w1 as u8, w as u8]);
    assert(be_bytes(w3 as nat, 1) =~= seq![w3 as u8]);
    assert(be_bytes(w2 as nat, 2) =~= seq![w3 as u8, w2 as u8]);
    assert(be_bytes(w1 as nat, 3) =~= seq![w3 as u8, w2 as u8, w1 as u8]);
    assert(be_bytes(w as nat, 4) =~= seq![w3 as u8, w2 as u8, w1 as u8, w as u8]);
    assert(be_bytes(w7 as nat, 1) =~= seq![w7 as u8]);
    assert(be_bytes(w6 as nat, 2) =~= seq![w7 as u8, w6 as u8]);
    assert(be_bytes(w5 as nat, 3) =~= seq![w7 as u8, w6 as u8, w5 as u8]);
    assert(be_bytes(w4 as nat, 4) =~= seq![w7 as u8, w6 as u8, w5 as u8, w4 as u8]);
    assert(be_bytes(w3 as nat, 5) =~= seq![w7 as u8, w6 as u8, w5 as u8, w4 as u8, w3 as u8]);
    assert(be_bytes(w2 as nat, 6) =~= seq![
        w7 as u8,
        w6 as u8,
        w5 as u8,
        w4 as u8,
        w3 as u8,
        w2 as u8,
    ]);
    assert(be_bytes(w1 as nat, 7) =~= seq![
        w7 as u8,
        w6 as u8,
        w5 as u8,
        w4 as u8,
        w3 as u8,
        w2 as u8,
        w1 as u8,
    ]);
    assert(be_bytes(w as nat, 8) =~= seq![
        w7 as u8,
        w6 as u8,
        w5 as u8,
        w4 as u8,
        w3 as u8,
        w2 as u8,
        w1 as u8,
        w as u8,
    ]);
}

proof fn lemma_be_value_push(s: Seq<u8>, b: u8)
    ensures
        be_value(s.push(b)) == be_value(s) * 256 + b,
{
    assert(s.push(b).drop_last() =~= s);
}

proof fn lemma_be_value_bound(s: Seq<u8>)
    ensures
        be_value(s) < vstd::arithmetic::power::pow(256, s.len()),
    decreases s.len(),
{
    reveal(vstd::arithmetic::power::pow);
    if s.len() > 0 {
        lemma_be_value_bound(s.drop_last());
    }
}

/// Four bytes fit 32 bits, and two fit 16.
pub proof fn lemma_be_value_fits_in(s: Seq<u8>)
    ensures
        s.len() <= 4 ==> be_value(s) <= u32::MAX,
        s.len() <= 2 ==> be_value(s) <= u16::MAX,
{
    lemma_be_value_bound(s);
    reveal_with_fuel(vstd::arithmetic::power::pow, 8);
    if s.len() <= 4 {
        vstd::arithmetic::power::lemma_pow_increases(256, s.len(), 4);
    }
    if s.len() <= 2 {
        vstd::arithmetic::power::lemma_pow_increases(256, s.len(), 2);
    }
}

/// A number of at most seven bytes leaves room for one more in a word.
proof fn lemma_be_value_fits(s: Seq<u8>)
    requires
        s.len() <= 7,
    ensures
        be_value(s) < 0x100_0000_0000_0000,
{
    lemma_be_value_bound(s);
    vstd::arithmetic::power::lemma_pow_increases(256, s.len(), 7);
    reveal_with_fuel(vstd::arithmetic::power::pow, 8);
}

proof fn lemma_shift_in(val: u64, b: u8)
    requires
        val < 0x100_0000_0000_0000,
    ensures
        (val << 8) | (b as u64) == val * 256 + b,
{
    assert((val << 8) | (b as u64) == val * 256 + b) by (bit_vector)
        requires
            val < 0x100_0000_0000_0000,
    ;
}

/// Decode a QUIC varint from the front of `buf`.
/// Returns `(value, bytes_consumed)`, or `None` if `buf` is too short.
pub fn get_varint(buf: &[u8]) -> (r: Option<(u64, usize)>)
    ensures
        match r {
            Some((v, n)) => varint_front(buf@) == Some((v as nat, n as nat)) && n <= buf@.len(),
            None => varint_front(buf@) is None,
        },
{
    if buf.len() == 0 {
        return None;
    }
    let first: u8 = buf[0];
    let shift: u8 = first >> 6;
    proof {
        assert(first >> 6 <= 3 && (first >> 6 == 0 <==> first < 0x40) && (first >> 6 == 1 <==> 0x40
            <= first < 0x80) && (first >> 6 == 2 <==> 0x80 <= first < 0xc0)) by (bit_vector);
        assert(1usize << 0u8 == 1 && 1usize << 1u8 == 2 && 1usize << 2u8 == 4 && 1usize << 3u8 == 8)
            by (bit_vector);
        assert(first & 0x3f == first % 64) by (bit_vector);
    }
    let len: usize = 1usize << shift;
    if buf.len() < len {
        return None;
    }
    let mut val: u64 = (first & 0x3f) as u64;
    let mut i: usize = 1;
    let ghost head = seq![(first % 64) as u8];
    proof {
        assert(head.drop_last() =~= Seq::<u8>::empty());
        assert(be_value(Seq::<u8>::empty()) == 0);
        assert(be_value(head) == first % 64);
        assert(head + buf@.subrange(1, 1) =~= head);
    }
    while i < len
        invariant
            1 <= i <= len <= 8,
            len <= buf@.len(),
            head.len() == 1,
            val == be_value(head + buf@.subrange(1, i as int)),
        decreases len - i,
    {
        let b: u8 = buf[i];
        let ghost before = head + buf@.subrange(1, i as int);
        proof {
            lemma_be_value_fits(before);
            lemma_shift_in(val, b);
            lemma_be_value_push(before, b);
            assert(before.push(b) =~= head + buf@.subrange(1, i + 1));
        }
        val = (val << 8) | (b as u64);
        i += 1;
    }
    Some((val, len))
}

/// Write a varint into the front of `buf`; returns bytes written.
pub fn put_varint_slice(buf: &mut [u8], v: u64) -> (n: usize)
    requires
        old(buf)@.len() >= varint_width(v as nat),
    ensures
        n == varint_width(v as nat),
        final(buf)@ == varint_bytes(v) + old(buf)@.skip(n as int),
{
    proof {
        lemma_be_bytes_spelled(varint_word(v));
        lemma_varint_word_bytes(v);
    }
    if v <= 63 {
        buf[0] = v as u8;
        assert(buf@ =~= varint_bytes(v) + old(buf)@.skip(1));
        1
    } else if v <= 16383 {
        buf[0] = (v >> 8) as u8 | 0x40;
        buf[1] = v as u8;
        assert(buf@ =~= varint_bytes(v) + old(buf)@.skip(2));
        2
    } else if v <= 1_073_741_823 {
        buf[0] = (v >> 24) as u8 | 0x80;
        buf[1] = (v >> 16) as u8;
        buf[2] = (v >> 8) as u8;
        buf[3] = v as u8;
        assert(buf@ =~= varint_bytes(v) + old(buf)@.skip(4));
        4
    } else {
        buf[0] = (v >> 56) as u8 | 0xc0;
        buf[1] = (v >> 48) as u8;
        buf[2] = (v >> 40) as u8;
        buf[3] = (v >> 32) as u8;
        buf[4] = (v >> 24) as u8;
        buf[5] = (v >> 16) as u8;
        buf[6] = (v >> 8) as u8;
        buf[7] = v as u8;
        assert(buf@ =~= varint_bytes(v) + old(buf)@.skip(8));
        8
    }
}

/// The bytes of `varint_word(v)`, as shifts of `v` with the length bits added to the first.
pub proof fn lemma_varint_word_bytes(v: u64)
    ensures
        ({
            let w = varint_word(v);
            &&& v <= 63 ==> w == v
            &&& 63 < v <= 16383 ==> (w >> 8) as u8 == (v >> 8) as u8 | 0x40 && w as u8 == v as u8
            &&& 16383 < v <= 1_073_741_823 ==> {
                &&& (w >> 24) as u8 == (v >> 24) as u8 | 0x80
                &&& (w >> 16) as u8 == (v >> 16) as u8
                &&& (w >> 8) as u8 == (v >> 8) as u8
                &&& w as u8 == v as u8
            }
            &&& 1_073_741_823 < v ==> {
                &&& (w >> 56) as u8 == (v >> 56) as u8 | 0xc0
                &&& (w >> 48) as u8 == (v >> 48) as u8
                &&& (w >> 40) as u8 == (v >> 40) as u8
                &&& (w >> 32) as u8 == (v >> 32) as u8
                &&& (w >> 24) as u8 == (v >> 24) as u8
                &&& (w >> 16) as u8 == (v >> 16) as u8
                &&& (w >> 8) as u8 == (v >> 8) as u8
                &&& w as u8 == v as u8
            }
        }),
{
    let w2 = v | 0x4000;
    assert((w2 >> 8) as u8 == (v >> 8) as u8 | 0x40 && w2 as u8 == v as u8) by (bit_vector)
        requires
            w2 == v | 0x4000,
    ;
    let w4 = v | 0x8000_0000;
    assert((w4 >> 24) as u8 == (v >> 24) as u8 | 0x80 && (w4 >> 16) as u8 == (v >> 16) as u8 && (w4
        >> 8) as u8 == (v >> 8) as u8 && w4 as u8 == v as u8) by (bit_vector)
        requires
            w4 == v | 0x8000_0000,
    ;
    let w8 = v | 0xc000_0000_0000_0000;
    assert((w8 >> 56) as u8 == (v >> 56) as u8 | 0xc0 && (w8 >> 48) as u8 == (v >> 48) as u8 && (w8
        >> 40) as u8 == (v >> 40) as u8 && (w8 >> 32) as u8 == (v >> 32) as u8 && (w8 >> 24) as u8
        == (v >> 24) as u8 && (w8 >> 16) as u8 == (v >> 16) as u8 && (w8 >> 8) as u8 == (v
        >> 8) as u8 && w8 as u8 == v as u8) by (bit_vector)
        requires
            w8 == v | 0xc000_0000_0000_0000,
    ;
}

proof fn lemma_be_value_append(s: Seq<u8>, x: u64)
    requires
        be_value(s) == x >> 8,
    ensures
        be_value(s.push(x as u8)) == x,
{
    lemma_be_value_push(s, x as u8);
    assert((x >> 8) * 256 + (x as u8) == x) by (bit_vector);
}

proof fn lemma_be_value_one(b: u8)
    ensures
        be_value(seq![b]) == b,
{
    assert(seq![b].drop_last() =~= Seq::<u8>::empty());
    assert(be_value(Seq::<u8>::empty()) == 0);
}

/// Reading a varint gives back the number that was written, and takes exactly the bytes
/// that were written, whatever follows them.
pub proof fn law_varint_round_trip(v: u64, rest: Seq<u8>)
    requires
        v < 0x4000_0000_0000_0000,
    ensures
        varint_front(varint_bytes(v) + rest) == Some((v as nat, varint_width(v as nat))),
        varint_bytes(v).len() == varint_width(v as nat),
{
    let w = varint_word(v);
    let s = varint_bytes(v) + rest;
    lemma_be_bytes_spelled(w);
    lemma_varint_word_bytes(v);
    lemma_be_bytes_len(w as nat, varint_width(v as nat));
    let h = seq![(s[0] % 64) as u8];
    lemma_be_value_one(h[0]);
    if v <= 63 {
        assert(v <= 63 ==> (v as u8) < 0x40 && (v as u8) % 64 == v) by (bit_vector);
        assert(h + s.subrange(1, 1) =~= h);
    } else if v <= 16383 {
        assert(63 < v <= 16383 ==> 0x40 <= ((v >> 8) as u8 | 0x40) < 0x80 && ((v >> 8) as u8 | 0x40)
            % 64 == v >> 8) by (bit_vector);
        lemma_be_value_append(h, v);
        assert(h + s.subrange(1, 2) =~= h.push(v as u8));
    } else if v <= 1_073_741_823 {
        assert(16383 < v <= 1_073_741_823 ==> 0x80 <= ((v >> 24) as u8 | 0x80) < 0xc0 && ((v
            >> 24) as u8 | 0x80) % 64 == v >> 24) by (bit_vector);
        assert(v >> 16 >> 8 == v >> 24 && v >> 8 >> 8 == v >> 16) by (bit_vector);
        let h1 = h.push((v >> 16) as u8);
        let h2 = h1.push((v >> 8) as u8);
        lemma_be_value_append(h, v >> 16);
        lemma_be_value_append(h1, v >> 8);
        lemma_be_value_append(h2, v);
        assert(h + s.subrange(1, 4) =~= h2.push(v as u8));
    } else {
        assert(1_073_741_823 < v < 0x4000_0000_0000_0000 ==> 0xc0 <= ((v >> 56) as u8 | 0xc0) && ((v
            >> 56) as u8 | 0xc0) % 64 == v >> 56) by (bit_vector);
        assert(v >> 48 >> 8 == v >> 56 && v >> 40 >> 8 == v >> 48 && v >> 32 >> 8 == v >> 40 && v
            >> 24 >> 8 == v >> 32 && v >> 16 >> 8 == v >> 24 && v >> 8 >> 8 == v >> 16)
            by (bit_vector);
        let h1 = h.push((v >> 48) as u8);
        let h2 = h1.push((v >> 40) as u8);
        let h3 = h2.push((v >> 32) as u8);
        let h4 = h3.push((v >> 24) as u8);
        let h5 = h4.push((v >> 16) as u8);
        let h6 = h5.push((v >> 8) as u8);
        lemma_be_value_append(h, v >> 48);
        lemma_be_value_append(h1, v >> 40);
        lemma_be_value_append(h2, v >> 32);
        lemma_be_value_append(h3, v >> 24);
        lemma_be_value_append(h4, v >> 16);
        lemma_be_value_append(h5, v >> 8);
        lemma_be_value_append(h6, v);
        assert(h + s.subrange(1, 8) =~= h6.push(v as u8));
    }
}

/// A varint that is complete reads the same whatever follows it.
pub proof fn lemma_varint_front_extend(s: Seq<u8>, rest: Seq<u8>)
    requires
        has_varint(s),
    ensures
        varint_front(s + rest) == varint_front(s),
{
    let n = varint_span(s[0]) as int;
    assert((s + rest).subrange(1, n) =~= s.subrange(1, n));
}

/// A varint cut short is not a varint.
pub proof fn law_varint_prefix_incomplete(v: u64, k: int)
    requires
        0 <= k < varint_width(v as nat),
    ensures
        varint_front(varint_bytes(v).take(k)) is None,
{
    let w = varint_word(v);
    lemma_be_bytes_spelled(w);
    lemma_varint_word_bytes(v);
    assert(63 < v <= 16383 ==> 0x40 <= ((v >> 8) as u8 | 0x40) < 0x80) by (bit_vector);
    assert(16383 < v <= 1_073_741_823 ==> 0x80 <= ((v >> 24) as u8 | 0x80) < 0xc0) by (bit_vector);
    assert(0xc0 <= ((v >> 56) as u8 | 0xc0)) by (bit_vector);
}

/// Byte length of a QUIC varint encoding `v`.
pub fn varint_len(v: u64) -> (n: usize)
    ensures
        n == varint_width(v as nat),
{
    if v <= 63 {
        1
    } else if v <= 16383 {
        2
    } else if v <= 1_073_741_823 {
        4
    } else {
        8
    }
}

/// The number that four bytes spell.
pub fn be_u32(a: u8, b: u8, c: u8, d: u8) -> (n: u32)
    ensures
        n == be_value(seq![a, b, c, d]),
{
    proof {
        lemma_be_value_one(a);
        lemma_be_value_push(seq![a], b);
        assert(seq![a].push(b) =~= seq![a, b]);
        lemma_be_value_push(seq![a, b], c);
        assert(seq![a, b].push(c) =~= seq![a, b, c]);
        lemma_be_value_push(seq![a, b, c], d);
        assert(seq![a, b, c].push(d) =~= seq![a, b, c, d]);
    }
    a as u32 * 0x100_0000 + b as u32 * 0x1_0000 + c as u32 * 0x100 + d as u32
}

/// The number that two bytes spell.
pub fn be_u16(a: u8, b: u8) -> (n: u16)
    ensures
        n == be_value(seq![a, b]),
{
    proof {
        lemma_be_value_one(a);
        lemma_be_value_push(seq![a], b);
        assert(seq![a].push(b) =~= seq![a, b]);
    }
    a as u16 * 0x100 + b as u16
}

/// Copy `src` into `buf` from the index `at` on.
pub fn copy_into(buf: &mut [u8], at: usize, src: &[u8])
    requires
        at + src@.len() <= old(buf)@.len(),
    ensures
        final(buf)@ == old(buf)@.take(at as int) + src@ + old(buf)@.skip(at + src@.len()),
{
    let ghost before = buf@;
    let room: usize = buf.len();
    let mut i: usize = 0;
    while i < src.len()
        invariant
            i <= src@.len(),
            buf@.len() == before.len() == room,
            at + src@.len() <= before.len(),
            buf@ =~= before.take(at as int) + src@.take(i as int) + before.skip(at + i),
        decreases src@.len() - i,
    {
        buf[at + i] = src[i];
        i += 1;
    }
    assert(src@.take(i as int) =~= src@);
}

/// A big-endian number is read digit by digit in base 256, from nothing.
pub proof fn law_be_value_digit_by_digit(s: Seq<u8>, b: u8)
    ensures
        be_value(Seq::empty()) == 0,
        be_value(s.push(b)) == 256 * be_value(s) + b,
{
    lemma_be_value_push(s, b);
}

/// A big-endian number is written in as many bytes as asked for, the lowest last.
pub proof fn law_be_bytes_digit_by_digit(n: nat, len: nat)
    ensures
        be_bytes(n, len).len() == len,
        be_bytes(n, len + 1).last() == n % 256,
        be_bytes(n, len + 1).drop_last() == be_bytes(n / 256, len),
{
    lemma_be_bytes_len(n, len);
    lemma_be_bytes_len(n / 256, len);
    assert(be_bytes(n, len + 1).drop_last() =~= be_bytes(n / 256, len));
}

/// A varint takes 1, 2, 4 or 8 bytes: the fewest whose bits, but for two, hold the number, and 8
/// for what fits nowhere.
pub proof fn law_varint_width_is_least(v: nat)
    ensures
        varint_width(v) == 1 <==> v < 0x40,
        varint_width(v) == 2 <==> 0x40 <= v < 0x4000,
        varint_width(v) == 4 <==> 0x4000 <= v < 0x4000_0000,
        varint_width(v) == 8 <==> 0x4000_0000 <= v,
{
}

proof fn lemma_eight_bytes(v: u64)
    requires
        v >= 0x4000_0000,
    ensures
        ({
            let e = varint_bytes(v);
            &&& e.len() == 8
            &&& e[0] >= 0xc0
            &&& be_value(seq![(e[0] % 64) as u8] + e.subrange(1, 8)) == v % 0x4000_0000_0000_0000
        }),
{
    let e = varint_bytes(v);
    lemma_be_bytes_spelled(varint_word(v));
    lemma_varint_word_bytes(v);
    let x = v & 0x3fff_ffff_ffff_ffff;
    assert(x == v % 0x4000_0000_0000_0000 && x >> 56 == ((v >> 56) as u8 | 0xc0) % 64 && 0xc0 <= (
    (v >> 56) as u8 | 0xc0)) by (bit_vector)
        requires
            x == v & 0x3fff_ffff_ffff_ffff,
    ;
    assert((x >> 48) as u8 == (v >> 48) as u8 && (x >> 40) as u8 == (v >> 40) as u8 && (x
        >> 32) as u8 == (v >> 32) as u8 && (x >> 24) as u8 == (v >> 24) as u8 && (x >> 16) as u8
        == (v >> 16) as u8 && (x >> 8) as u8 == (v >> 8) as u8 && x as u8 == v as u8)
        by (bit_vector)
        requires
            x == v & 0x3fff_ffff_ffff_ffff,
    ;
    assert(x >> 48 >> 8 == x >> 56 && x >> 40 >> 8 == x >> 48 && x >> 32 >> 8 == x >> 40 && x >> 24
        >> 8 == x >> 32 && x >> 16 >> 8 == x >> 24 && x >> 8 >> 8 == x >> 16) by (bit_vector);
    let h = seq![(e[0] % 64) as u8];
    lemma_be_value_one(h[0]);
    let h1 = h.push((x >> 48) as u8);
    let h2 = h1.push((x >> 40) as u8);
    let h3 = h2.push((x >> 32) as u8);
    let h4 = h3.push((x >> 24) as u8);
    let h5 = h4.push((x >> 16) as u8);
    let h6 = h5.push((x >> 8) as u8);
    lemma_be_value_append(h, x >> 48);
    lemma_be_value_append(h1, x >> 40);
    lemma_be_value_append(h2, x >> 32);
    lemma_be_value_append(h3, x >> 24);
    lemma_be_value_append(h4, x >> 16);
    lemma_be_value_append(h5, x >> 8);
    lemma_be_value_append(h6, x);
    assert(h + e.subrange(1, 8) =~= h6.push(x as u8));
}

/// The two highest bits of a varint tell its width, and the rest is the number, highest byte
/// first. (Of a number of more than 62 bits the two highest are lost.)
pub proof fn law_varint_layout(v: u64)
    ensures
        ({
            let e = varint_bytes(v);
            &&& e.len() == 1 ==> e[0] < 0x40
            &&& e.len() == 2 ==> 0x40 <= e[0] < 0x80
            &&& e.len() == 4 ==> 0x80 <= e[0] < 0xc0
            &&& e.len() == 8 ==> 0xc0 <= e[0]
            &&& e.len() == varint_width(v as nat)
            &&& be_value(seq![(e[0] % 64) as u8] + e.skip(1)) == v % 0x4000_0000_0000_0000
        }),
{
    let e = varint_bytes(v);
    if v >= 0x4000_0000 {
        lemma_eight_bytes(v);
        assert(e.skip(1) =~= e.subrange(1, 8));
    } else {
        law_varint_round_trip(v, Seq::empty());
        assert(e + Seq::<u8>::empty() =~= e);
        assert(e.skip(1) =~= e.subrange(1, e.len() as int));
        assert(varint_front(e) == Some((v as nat, varint_width(v as nat))));
    }
}

/// What is read at the front of some bytes: the two highest bits of the first tell how many of
/// them make up the varint, and without those bits they spell the number. There is nothing to
/// read where some of them are missing.
pub proof fn law_varint_is_read_off(s: Seq<u8>)
    ensures
        s.len() == 0 ==> varint_front(s) is None,
        s.len() > 0 ==> {
            let n: int = if s[0] < 0x40 {
                1
            } else if s[0] < 0x80 {
                2
            } else if s[0] < 0xc0 {
                4
            } else {
                8
            };
            if s.len() < n {
                varint_front(s) is None
            } else {
                varint_front(s) == Some(
                    (be_value(seq![(s[0] % 64) as u8] + s.subrange(1, n)), n as nat),
                )
            }
        },
{
}

} // verus!
