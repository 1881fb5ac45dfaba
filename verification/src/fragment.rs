//! Splitting a UDP message into fragments, and joining fragments into a message.

use vstd::prelude::*;

use crate::udp_message::UdpMessage;
use crate::udp_message;

verus! {

/// How many payload bytes a fragment of `m` may carry within `max_size` bytes on the wire.
pub open spec fn piece_len(m: udp_message::Message, max_size: nat) -> nat {
    if max_size > m.header_len() {
        (max_size - m.header_len()) as nat
    } else {
        0
    }
}

/// How many pieces of `piece` bytes it takes to hold `len` bytes.
pub open spec fn pieces(len: nat, piece: nat) -> nat {
    ((len + piece - 1) / (piece as int)) as nat
}

/// How many messages `m` is sent as when none may exceed `max_size` bytes: itself if it fits,
/// none if not even a header fits.
pub open spec fn fragment_count_spec(m: udp_message::Message, max_size: nat) -> nat {
    if m.wire_len() <= max_size {
        1
    } else if piece_len(m, max_size) == 0 {
        0
    } else {
        pieces(m.data.len(), piece_len(m, max_size))
    }
}

pub open spec fn least(a: int, b: int) -> int {
    if a <= b {
        a
    } else {
        b
    }
}

/// The `i`-th of `count` fragments of `m`, of `piece` payload bytes each.
pub open spec fn fragment_at(m: udp_message::Message, count: nat, piece: nat, i: int) -> udp_message::Message {
    udp_message::Message {
        frag_id: i as u8,
        frag_count: count as u8,
        data: m.data.subrange(i * piece, least((i + 1) * piece, m.data.len() as int)),
        ..m
    }
}

/// The messages that `m` is sent as, in order.
pub open spec fn fragments(m: udp_message::Message, max_size: nat) -> Seq<udp_message::Message> {
    let count = fragment_count_spec(m, max_size);
    if m.wire_len() <= max_size {
        seq![m]
    } else {
        Seq::new(count, |i: int| fragment_at(m, count, piece_len(m, max_size), i))
    }
}

/// Within the pieces of a payload, every piece but the last is full and the last is not empty.
pub proof fn lemma_pieces(len: nat, piece: nat, i: int)
    requires
        piece > 0,
    ensures
        0 <= i < pieces(len, piece) ==> i * piece < len,
        i >= pieces(len, piece) ==> i * piece >= len,
        len > piece ==> pieces(len, piece) >= 2,
{
    let p = piece as int;
    let n = pieces(len, piece) as int;
    assert((len + p - 1) / p >= 0) by (nonlinear_arith)
        requires
            p > 0,
            len >= 0,
    ;
    assert(n * p <= len + p - 1 < n * p + p) by (nonlinear_arith)
        requires
            p > 0,
            n == (len + p - 1) / p,
    ;
    if 0 <= i < n {
        assert(i * p <= n * p - p) by (nonlinear_arith)
            requires
                i <= n - 1,
                p > 0,
        ;
    }
    if i >= n {
        assert(i * p >= n * p) by (nonlinear_arith)
            requires
                i >= n,
                p > 0,
        ;
    }
    if len > piece {
        assert(n >= 2) by (nonlinear_arith)
            requires
                len + p - 1 < n * p + p,
                len > p,
                p > 0,
        ;
    }
}

/// No fragment exceeds the size that was asked for, and each differs from the message only
/// in its number, the number of fragments and its share of the payload.
pub proof fn law_fragments_fit(m: udp_message::Message, max_size: nat)
    ensures
        forall|i: int| #![trigger fragments(m, max_size)[i]]
            0 <= i < fragments(m, max_size).len() ==> {
                let f = fragments(m, max_size)[i];
                &&& f.wire_len() <= max_size
                &&& f.session_id == m.session_id
                &&& f.packet_id == m.packet_id
                &&& f.addr == m.addr
                &&& m.acceptable() ==> f.acceptable()
            },
{
    let piece = piece_len(m, max_size);
    assert forall|i: int| #![trigger fragments(m, max_size)[i]]
        0 <= i < fragments(m, max_size).len() implies {
        let f = fragments(m, max_size)[i];
        &&& f.wire_len() <= max_size
        &&& f.session_id == m.session_id
        &&& f.packet_id == m.packet_id
        &&& f.addr == m.addr
        &&& m.acceptable() ==> f.acceptable()
    } by {
        if m.wire_len() > max_size {
            lemma_pieces(m.data.len(), piece, i);
            assert((i + 1) * piece == i * piece + piece) by (nonlinear_arith);
            assert(i * piece >= 0) by (nonlinear_arith)
                requires
                    i >= 0,
            ;
        }
    }
}

/// How many messages `m` is sent as within `max_size` bytes each: 1 if it fits as it is,
/// 0 if not even a header fits.
pub fn fragment_count(m: &UdpMessage, max_size: usize) -> (n: usize)
    ensures
        n == fragment_count_spec(m@, max_size as nat),
{
    match m.checked_size() {
        Some(n) => {
            if n <= max_size {
                return 1;
            }
        },
        None => {},
    }
    let header: usize = match m.checked_header_size() {
        Some(h) => h,
        None => {
            return 0;
        },
    };
    if max_size <= header {
        return 0;
    }
    let piece: usize = max_size - header;
    let len: usize = m.data.len();
    let whole: usize = len / piece;
    let rest: usize = len % piece;
    proof {
        let p = piece as int;
        assert(whole * p + rest == len && 0 <= rest < p) by (nonlinear_arith)
            requires
                p > 0,
                whole == len as int / p,
                rest == len as int % p,
        ;
        if rest == 0 {
            assert((len + p - 1) / p == whole) by (nonlinear_arith)
                requires
                    p > 0,
                    len == whole * p,
            ;
        } else {
            assert((len + p - 1) / p == whole + 1) by (nonlinear_arith)
                requires
                    p > 0,
                    len == whole * p + rest,
                    0 < rest < p,
            ;
            assert(whole < len) by (nonlinear_arith)
                requires
                    p > 0,
                    len == whole * p + rest,
                    0 < rest,
            ;
        }
    }
    if rest == 0 {
        whole
    } else {
        whole + 1
    }
}

/// Split a UDP message into fragments no larger than `max_size` bytes on the
/// wire. Returns the fragments in order, or an empty vec if even a single
/// header doesn't fit. Fragments are numbered with a `u8`, so there can be at most 255.
pub fn frag_udp_message(m: &UdpMessage, max_size: usize) -> (frags: Vec<UdpMessage>)
    requires
        fragment_count_spec(m@, max_size as nat) <= 255,
    ensures
        frags@.map_values(|f: UdpMessage| f@) == fragments(m@, max_size as nat),
{
    let ghost want = fragments(m@, max_size as nat);
    let mut frags: Vec<UdpMessage> = Vec::new();
    let fits: bool = match m.checked_size() {
        Some(n) => n <= max_size,
        None => false,
    };
    if fits {
        frags.push(m.clone());
        assert(frags@.map_values(|f: UdpMessage| f@) =~= want);
        return frags;
    }
    let max_payload: usize = match m.checked_header_size() {
        Some(h) => max_size.saturating_sub(h),
        None => 0,
    };
    if max_payload == 0 {
        assert(frags@.map_values(|f: UdpMessage| f@) =~= want);
        return frags;
    }
    let frag_count: usize = fragment_count(m, max_size);
    let len: usize = m.data.len();
    let mut off: usize = 0;
    let mut frag_id: u8 = 0;
    proof {
        assert(0 * max_payload == 0) by (nonlinear_arith);
    }
    while off < len
        invariant
            len == m.data@.len(),
            0 < max_payload == piece_len(m@, max_size as nat),
            frag_count == pieces(len as nat, max_payload as nat) <= 255,
            want == fragments(m@, max_size as nat),
            want.len() == frag_count,
            m@.wire_len() > max_size,
            frag_count == fragment_count_spec(m@, max_size as nat),
            frag_id <= frag_count,
            off == least(frag_id * max_payload, len as int),
            frags@.len() == frag_id,
            forall|i: int| 0 <= i < frag_id ==> (#[trigger] frags@[i])@ == want[i],
        decreases len - off,
    {
        proof {
            lemma_pieces(len as nat, max_payload as nat, frag_id as int);
            assert((frag_id + 1) * max_payload == frag_id * max_payload + max_payload)
                by (nonlinear_arith);
        }
        let end: usize = if len - off <= max_payload {
            len
        } else {
            off + max_payload
        };
        let data = vstd::slice::slice_to_vec(
            vstd::slice::slice_subrange(m.data.as_slice(), off, end),
        );
        let f = UdpMessage {
            session_id: m.session_id,
            packet_id: m.packet_id,
            frag_id,
            frag_count: frag_count as u8,
            addr: m.addr.clone(),
            data,
        };
        assert(f@ =~= want[frag_id as int]);
        frags.push(f);
        off = end;
        frag_id += 1;
    }
    proof {
        lemma_pieces(len as nat, max_payload as nat, frag_id as int);
    }
    assert(frags@.map_values(|f: UdpMessage| f@) =~= want);
    frags
}

/// How a message is split. One that fits goes as it is; if there is no room for a header and a
/// byte, there is nothing; otherwise every fragment but the last is as large as is allowed, the
/// last holds what is left and is not empty, and they are numbered in order, each with the number
/// of all.
pub proof fn law_how_fragments_are_cut(m: udp_message::Message, max_size: nat)
    ensures
        ({
            let a = vstd::utf8::encode_utf8(m.addr).len();
            let head = 8 + crate::wire::varint_width(a) + a;
            let len = m.data.len();
            let row = fragments(m, max_size);
            let n = row.len();
            let p = max_size - head;
            &&& fragment_count_spec(m, max_size) == n
            &&& head + len <= max_size ==> row == seq![m]
            &&& head + len > max_size && p <= 0 ==> n == 0
            &&& head + len > max_size && p > 0 ==> {
                &&& n >= 2
                &&& (n - 1) * p < len <= n * p
                &&& forall|i: int| #![trigger row[i]]
                    0 <= i < n ==> {
                        &&& row[i].session_id == m.session_id
                        &&& row[i].packet_id == m.packet_id
                        &&& row[i].addr == m.addr
                        &&& row[i].frag_id == i as u8
                        &&& row[i].frag_count == n as u8
                        &&& i < n - 1 ==> row[i].data == m.data.subrange(i * p, (i + 1) * p)
                        &&& i == n - 1 ==> row[i].data == m.data.skip(i * p)
                    }
            }
        }),
{
    let head = m.header_len();
    let len = m.data.len();
    let row = fragments(m, max_size);
    let n = row.len() as int;
    let p = max_size - head;
    if head + len > max_size && p > 0 {
        lemma_pieces(len, p as nat, n);
        lemma_pieces(len, p as nat, n - 1);
        assert forall|i: int| #![trigger row[i]] 0 <= i < n implies {
            &&& i < n - 1 ==> row[i].data == m.data.subrange(i * p, (i + 1) * p)
            &&& i == n - 1 ==> row[i].data == m.data.skip(i * p)
        } by {
            lemma_pieces(len, p as nat, i);
            lemma_pieces(len, p as nat, i + 1);
            if i == n - 1 {
                assert(m.data.skip(i * p) =~= m.data.subrange(i * p, len as int));
            }
        }
    }
}

} // verus!
