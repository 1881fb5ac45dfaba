//! TCP request and response framing.

use bytes::{Bytes, BytesMut};
use vstd::prelude::*;
use vstd::string::*;

use crate::buffer;
use crate::padding;
use crate::wire;

verus! {

/// TCP request frame type id.
pub const FRAME_TYPE_TCP_REQUEST: u64 = 0x401;

/// The frame that asks for a TCP connection:
/// `varint(0x401) | varint(addr_len) | addr | varint(pad_len) | pad`.
pub open spec fn tcp_request(addr: Seq<u8>, pad: Seq<u8>) -> Seq<u8> {
    wire::varint_bytes(FRAME_TYPE_TCP_REQUEST) + wire::varint_bytes(addr.len() as u64) + addr
        + wire::varint_bytes(pad.len() as u64) + pad
}

/// Serialize a TCP request frame with the padding `pad`.
pub fn encode_tcp_request_with(address: &str, pad: &[u8]) -> (frame: Bytes)
    requires
        address.spec_bytes().len() + pad@.len() + 24 <= usize::MAX / 4,
    ensures
        buffer::contents(frame) == tcp_request(address.spec_bytes(), pad@),
        buffer::contents(frame).len() == 2 + wire::varint_width(address.spec_bytes().len())
            + address.spec_bytes().len() + wire::varint_width(pad@.len()) + pad@.len(),
{
    let addr = address.as_bytes();
    let addr_len: usize = addr.len();
    let pad_len: usize = pad.len();
    let mut buf = BytesMut::with_capacity(16 + addr_len + pad_len);
    proof {
        lemma_varint_bytes_len(FRAME_TYPE_TCP_REQUEST);
        lemma_varint_bytes_len(addr_len as u64);
        lemma_varint_bytes_len(pad_len as u64);
    }
    buffer::put_varint(&mut buf, FRAME_TYPE_TCP_REQUEST);
    buffer::put_varint(&mut buf, addr_len as u64);
    buffer::put_slice(&mut buf, addr);
    buffer::put_varint(&mut buf, pad_len as u64);
    buffer::put_slice(&mut buf, pad);
    assert(buffer::buffered(buf) =~= tcp_request(address.spec_bytes(), pad@));
    proof {
        law_request_layout(address.spec_bytes(), pad@);
    }
    buf.freeze()
}

/// Serialize a TCP request frame. Padding is generated internally.
pub fn encode_tcp_request(address: &str) -> (frame: Bytes)
    requires
        address.spec_bytes().len() + 1024 <= usize::MAX / 4,
    ensures
        exists|pad: Seq<u8>| #[trigger]
            padding::is_padding(pad, 64, 512) && buffer::contents(frame) == tcp_request(
                address.spec_bytes(),
                pad,
            ),
{
    let pad = padding::tcp_request_padding();
    encode_tcp_request_with(address, pad.as_slice())
}

proof fn lemma_varint_bytes_len(v: u64)
    ensures
        wire::varint_bytes(v).len() == wire::varint_width(v as nat) <= 8,
{
    wire::lemma_be_bytes_len(wire::varint_word(v) as nat, wire::varint_width(v as nat));
}

/// What stands at the front of a byte sequence where a length and that many bytes should.
pub enum Block {
    /// It is cut short.
    Short,
    /// Its length exceeds the limit.
    TooLong,
    /// It is complete and takes this many bytes, its length included.
    Whole(nat),
}

/// Read `varint(len) | len bytes` at the front of `s`, with `len` at most `limit`.
pub open spec fn block(s: Seq<u8>, limit: nat) -> Block {
    match wire::varint_front(s) {
        None => Block::Short,
        Some((len, n)) => if len > limit {
            Block::TooLong
        } else if s.len() < n + len {
            Block::Short
        } else {
            Block::Whole(n + len)
        },
    }
}

/// Result of parsing a TCP response header from a byte buffer.
#[derive(Debug, Clone, Copy, PartialEq, Eq, Structural)]
pub enum TcpResponseParse {
    /// Need more bytes before the full response header is available.
    NeedMore,
    /// Fully parsed: `ok` = status byte == 0; `consumed` bytes belong to the header.
    Done { ok: bool, consumed: usize },
    /// A length field exceeded its limit: the server is misbehaving.
    Invalid,
}

/// The TCP response header at the front of `s`:
/// `status(1) | varint(msg_len) | msg | varint(pad_len) | pad`.
pub open spec fn tcp_response(s: Seq<u8>) -> TcpResponseParse {
    if s.len() == 0 {
        TcpResponseParse::NeedMore
    } else {
        match block(s.skip(1), wire::MAX_MESSAGE_LENGTH as nat) {
            Block::Short => TcpResponseParse::NeedMore,
            Block::TooLong => TcpResponseParse::Invalid,
            Block::Whole(a) => match block(s.skip((1 + a) as int), wire::MAX_PADDING_LENGTH as nat) {
                Block::Short => TcpResponseParse::NeedMore,
                Block::TooLong => TcpResponseParse::Invalid,
                Block::Whole(b) => TcpResponseParse::Done {
                    ok: s[0] == 0,
                    consumed: (1 + a + b) as usize,
                },
            },
        }
    }
}

/// The TCP response header with the given fields, as a server writes it.
pub open spec fn tcp_response_header(status: u8, msg: Seq<u8>, pad: Seq<u8>) -> Seq<u8> {
    seq![status] + wire::varint_bytes(msg.len() as u64) + msg + wire::varint_bytes(pad.len() as u64)
        + pad
}

/// Try to parse a TCP response header from `buf`.
pub fn parse_tcp_response(buf: &[u8]) -> (r: TcpResponseParse)
    ensures
        r == tcp_response(buf@),
        r matches TcpResponseParse::Done { consumed, .. } ==> 0 < consumed <= buf@.len(),
{
    let mut pos: usize = 0;
    if pos >= buf.len() {
        return TcpResponseParse::NeedMore;
    }
    let status: u8 = buf[pos];
    pos += 1;

    let rest = vstd::slice::slice_subrange(buf, pos, buf.len());
    assert(rest@ =~= buf@.skip(1));
    let (msg_len, n): (u64, usize) = match wire::get_varint(rest) {
        Some(v) => v,
        None => {
            return TcpResponseParse::NeedMore;
        },
    };
    if msg_len > wire::MAX_MESSAGE_LENGTH {
        return TcpResponseParse::Invalid;
    }
    if rest.len() < n || rest.len() - n < msg_len as usize {
        return TcpResponseParse::NeedMore;
    }
    pos += n + msg_len as usize;

    let rest = vstd::slice::slice_subrange(buf, pos, buf.len());
    assert(rest@ =~= buf@.skip(pos as int));
    let (pad_len, n): (u64, usize) = match wire::get_varint(rest) {
        Some(v) => v,
        None => {
            return TcpResponseParse::NeedMore;
        },
    };
    if pad_len > wire::MAX_PADDING_LENGTH {
        return TcpResponseParse::Invalid;
    }
    if rest.len() - n < pad_len as usize {
        return TcpResponseParse::NeedMore;
    }
    pos += n + pad_len as usize;

    TcpResponseParse::Done { ok: status == 0x00, consumed: pos }
}

/// A block that is complete or too long reads the same whatever follows it.
proof fn lemma_block_extend(s: Seq<u8>, rest: Seq<u8>, limit: nat)
    requires
        !(block(s, limit) is Short),
    ensures
        block(s + rest, limit) == block(s, limit),
{
    wire::lemma_varint_front_extend(s, rest);
}

/// A verdict on the bytes that have arrived so far stays the verdict, whatever arrives later.
pub proof fn law_response_verdict_stands(s: Seq<u8>, rest: Seq<u8>)
    requires
        !(tcp_response(s) is NeedMore),
    ensures
        tcp_response(s + rest) == tcp_response(s),
{
    let t = s + rest;
    lemma_block_extend(s.skip(1), rest, wire::MAX_MESSAGE_LENGTH as nat);
    assert(t.skip(1) =~= s.skip(1) + rest);
    if let Block::Whole(a) = block(s.skip(1), wire::MAX_MESSAGE_LENGTH as nat) {
        lemma_block_extend(s.skip((1 + a) as int), rest, wire::MAX_PADDING_LENGTH as nat);
        assert(t.skip((1 + a) as int) =~= s.skip((1 + a) as int) + rest);
    }
}

proof fn lemma_block_round_trip(body: Seq<u8>, rest: Seq<u8>, limit: nat)
    requires
        body.len() <= limit < 0x4000_0000_0000_0000,
    ensures
        ({
            let head = wire::varint_bytes(body.len() as u64);
            block(head + body + rest, limit) == Block::Whole(head.len() + body.len())
        }),
{
    let head = wire::varint_bytes(body.len() as u64);
    wire::law_varint_round_trip(body.len() as u64, body + rest);
    assert(head + body + rest =~= head + (body + rest));
}

/// A response header reads back as it was written: accepted exactly if its status is zero, and
/// consuming exactly its own bytes, whatever data follows.
pub proof fn law_response_round_trip(status: u8, msg: Seq<u8>, pad: Seq<u8>, rest: Seq<u8>)
    requires
        msg.len() <= wire::MAX_MESSAGE_LENGTH,
        pad.len() <= wire::MAX_PADDING_LENGTH,
    ensures
        tcp_response(tcp_response_header(status, msg, pad) + rest) == (TcpResponseParse::Done {
            ok: status == 0,
            consumed: tcp_response_header(status, msg, pad).len() as usize,
        }),
{
    let s = tcp_response_header(status, msg, pad) + rest;
    let m = wire::varint_bytes(msg.len() as u64);
    let p = wire::varint_bytes(pad.len() as u64);
    lemma_block_round_trip(msg, p + pad + rest, wire::MAX_MESSAGE_LENGTH as nat);
    lemma_block_round_trip(pad, rest, wire::MAX_PADDING_LENGTH as nat);
    assert(s.skip(1) =~= m + msg + (p + pad + rest));
    assert(s.skip((1 + m.len() + msg.len()) as int) =~= p + pad + rest);
}

/// A header that is done does not reach beyond the bytes it was read from.
pub proof fn lemma_consumed(s: Seq<u8>)
    requires
        tcp_response(s) is Done,
    ensures
        0 < tcp_response(s)->consumed <= s.len(),
{
}

/// A response header cut short asks for more, however its lengths are written.
pub proof fn law_response_prefix_needs_more(s: Seq<u8>, k: int)
    requires
        tcp_response(s) is Done,
        0 <= k < tcp_response(s)->consumed,
    ensures
        tcp_response(s.take(k)) is NeedMore,
{
    lemma_consumed(s);
    let cut = s.take(k);
    if !(tcp_response(cut) is NeedMore) {
        law_response_verdict_stands(cut, s.skip(k));
        assert(cut + s.skip(k) =~= s);
        lemma_consumed(cut);
    }
}

/// What a reader of a TCP request frame finds: the address and the padding, if the frame is
/// whole.
pub open spec fn tcp_request_fields(s: Seq<u8>) -> Option<(Seq<u8>, Seq<u8>)> {
    match wire::varint_front(s) {
        Some((kind, a)) => match wire::varint_front(s.skip(a as int)) {
            Some((addr_len, b)) => {
                let start = (a + b) as int;
                match wire::varint_front(s.skip(start + addr_len)) {
                    Some((pad_len, c)) => {
                        let tail = start + addr_len + c;
                        if kind == FRAME_TYPE_TCP_REQUEST && tail + pad_len <= s.len() {
                            Some(
                                (
                                    s.subrange(start, start + addr_len),
                                    s.subrange(tail, tail + pad_len),
                                ),
                            )
                        } else {
                            None
                        }
                    },
                    None => None,
                }
            },
            None => None,
        },
        None => None,
    }
}

/// A TCP request frame reads back as it was written, whatever data follows.
pub proof fn law_request_round_trip(addr: Seq<u8>, pad: Seq<u8>, rest: Seq<u8>)
    requires
        addr.len() < 0x4000_0000_0000_0000,
        pad.len() < 0x4000_0000_0000_0000,
    ensures
        tcp_request_fields(tcp_request(addr, pad) + rest) == Some((addr, pad)),
{
    let s = tcp_request(addr, pad) + rest;
    let t = wire::varint_bytes(FRAME_TYPE_TCP_REQUEST);
    let a = wire::varint_bytes(addr.len() as u64);
    let p = wire::varint_bytes(pad.len() as u64);
    wire::law_varint_round_trip(FRAME_TYPE_TCP_REQUEST, a + addr + p + pad + rest);
    wire::law_varint_round_trip(addr.len() as u64, addr + p + pad + rest);
    wire::law_varint_round_trip(pad.len() as u64, pad + rest);
    assert(s =~= t + (a + addr + p + pad + rest));
    assert(s.skip(t.len() as int) =~= a + (addr + p + pad + rest));
    let start = (t.len() + a.len()) as int;
    assert(s.skip(start + addr.len()) =~= p + (pad + rest));
    assert(s.subrange(start, start + addr.len()) =~= addr);
    let tail = (start + addr.len() + p.len()) as int;
    assert(s.subrange(tail, tail + pad.len()) =~= pad);
}

/// A request is these parts and no more: the two bytes that tell what it is, the length of the
/// address, the address, the length of the padding, the padding. It ends with its padding, so
/// that what follows on the stream is the application's.
pub proof fn law_request_layout(addr: Seq<u8>, pad: Seq<u8>)
    requires
        addr.len() <= u64::MAX,
        pad.len() <= u64::MAX,
    ensures
        ({
            let s = tcp_request(addr, pad);
            let a = 2 + wire::varint_width(addr.len());
            let b = a + addr.len();
            let c = b + wire::varint_width(pad.len());
            &&& s.len() == c + pad.len()
            &&& s[0] == 0x44
            &&& s[1] == 0x01
            &&& s.subrange(2, a as int) == wire::varint_bytes(addr.len() as u64)
            &&& s.subrange(a as int, b as int) == addr
            &&& s.subrange(b as int, c as int) == wire::varint_bytes(pad.len() as u64)
            &&& s.skip(c as int) == pad
        }),
{
    let s = tcp_request(addr, pad);
    let w = wire::varint_word(0x401);
    assert(0x401u64 | 0x4000 == 0x4401) by (bit_vector);
    wire::lemma_be_bytes_spelled(w);
    assert((0x4401u64 >> 8) as u8 == 0x44 && 0x4401u64 as u8 == 0x01) by (bit_vector);
    lemma_varint_bytes_len(addr.len() as u64);
    lemma_varint_bytes_len(pad.len() as u64);
    let a = 2 + wire::varint_width(addr.len());
    let b = a + addr.len();
    let c = b + wire::varint_width(pad.len());
    assert(s.subrange(2, a as int) =~= wire::varint_bytes(addr.len() as u64));
    assert(s.subrange(a as int, b as int) =~= addr);
    assert(s.subrange(b as int, c as int) =~= wire::varint_bytes(pad.len() as u64));
    assert(s.skip(c as int) =~= pad);
}

/// Two requests differ if their addresses or their paddings do.
pub proof fn law_requests_tell_apart(a: Seq<u8>, p: Seq<u8>, b: Seq<u8>, q: Seq<u8>)
    requires
        a.len() < 0x4000_0000_0000_0000,
        p.len() < 0x4000_0000_0000_0000,
        b.len() < 0x4000_0000_0000_0000,
        q.len() < 0x4000_0000_0000_0000,
        tcp_request(a, p) == tcp_request(b, q),
    ensures
        a == b,
        p == q,
{
    law_request_round_trip(a, p, Seq::empty());
    law_request_round_trip(b, q, Seq::empty());
}

/// Whatever a server puts together as a response is read as such: a status, a message and padding
/// of allowed lengths, each length written in whatever form. It is good exactly if the status is
/// 0, and nothing of what follows it is touched.
pub proof fn law_any_response_is_read(
    status: u8,
    msg_len: Seq<u8>,
    msg: Seq<u8>,
    pad_len: Seq<u8>,
    pad: Seq<u8>,
    rest: Seq<u8>,
)
    requires
        wire::varint_front(msg_len) == Some((msg.len(), msg_len.len())),
        wire::varint_front(pad_len) == Some((pad.len(), pad_len.len())),
        msg.len() <= 2048,
        pad.len() <= 4096,
    ensures
        tcp_response(seq![status] + msg_len + msg + pad_len + pad + rest)
            == (TcpResponseParse::Done {
            ok: status == 0,
            consumed: (1 + msg_len.len() + msg.len() + pad_len.len() + pad.len()) as usize,
        }),
{
    let s = seq![status] + msg_len + msg + pad_len + pad + rest;
    wire::lemma_varint_front_extend(msg_len, msg + pad_len + pad + rest);
    wire::lemma_varint_front_extend(pad_len, pad + rest);
    assert(s.skip(1) =~= msg_len + (msg + pad_len + pad + rest));
    let end = (1 + msg_len.len() + msg.len()) as int;
    assert(s.skip(end) =~= pad_len + (pad + rest));
}

/// A response is refused as soon as a length in it is seen to exceed its limit: 2048 for the
/// message, 4096 for the padding.
pub proof fn law_long_response_is_refused(
    status: u8,
    msg_len: Seq<u8>,
    msg: Seq<u8>,
    pad_len: Seq<u8>,
    rest: Seq<u8>,
    n: nat,
)
    requires
        wire::varint_front(pad_len) == Some((n, pad_len.len())),
    ensures
        n > 2048 ==> tcp_response(seq![status] + pad_len + rest) is Invalid,
        n > 4096 && msg.len() <= 2048 && wire::varint_front(msg_len) == Some(
            (msg.len(), msg_len.len()),
        ) ==> tcp_response(seq![status] + msg_len + msg + pad_len + rest) is Invalid,
{
    let s = seq![status] + pad_len + rest;
    wire::lemma_varint_front_extend(pad_len, rest);
    assert(s.skip(1) =~= pad_len + rest);
    if wire::varint_front(msg_len) == Some((msg.len(), msg_len.len())) {
        let t = seq![status] + msg_len + msg + pad_len + rest;
        wire::lemma_varint_front_extend(msg_len, msg + pad_len + rest);
        assert(t.skip(1) =~= msg_len + (msg + pad_len + rest));
        assert(t.skip((1 + msg_len.len() + msg.len()) as int) =~= pad_len + rest);
    }
}

/// What the verdict on some bytes says of them.
pub proof fn law_response_verdict_means(s: Seq<u8>)
    ensures
        ({
            let first = wire::varint_front(s.skip(1));
            let (m, a) = first->0;
            let second = wire::varint_front(s.skip((1 + a + m) as int));
            let (p, b) = second->0;
            let short_head = s.len() == 0 || first is None;
            let short_msg = m <= 2048 && s.len() < 1 + a + m;
            let short_pad = p <= 4096 && s.len() < 1 + a + m + b + p;
            match tcp_response(s) {
                TcpResponseParse::NeedMore => short_head || short_msg || (m <= 2048 && (
                second is None || short_pad)),
                TcpResponseParse::Invalid => !short_head && (m > 2048 || (!short_msg
                    && second is Some && p > 4096)),
                TcpResponseParse::Done { ok, consumed } => {
                    &&& !short_head && m <= 2048 && !short_msg
                    &&& second is Some && p <= 4096 && !short_pad
                    &&& ok == (s[0] == 0)
                    &&& consumed == 1 + a + m + b + p
                },
            }
        }),
{
}

/// A reader needs every byte of a request: cut short anywhere, it holds no request.
pub proof fn law_request_cut_short(addr: Seq<u8>, pad: Seq<u8>, k: int)
    requires
        addr.len() < 0x4000_0000_0000_0000,
        pad.len() < 0x4000_0000_0000_0000,
        0 <= k < tcp_request(addr, pad).len(),
    ensures
        tcp_request_fields(tcp_request(addr, pad).take(k)) is None,
{
    let s = tcp_request(addr, pad);
    let cut = s.take(k);
    let rest = s.skip(k);
    assert(cut + rest =~= s);
    let t = wire::varint_bytes(FRAME_TYPE_TCP_REQUEST);
    let a = wire::varint_bytes(addr.len() as u64);
    let p = wire::varint_bytes(pad.len() as u64);
    wire::law_varint_round_trip(FRAME_TYPE_TCP_REQUEST, a + addr + p + pad);
    wire::law_varint_round_trip(addr.len() as u64, addr + p + pad);
    wire::law_varint_round_trip(pad.len() as u64, pad);
    assert(s =~= t + (a + addr + p + pad));
    assert(s.skip(t.len() as int) =~= a + (addr + p + pad));
    let start = (t.len() + a.len()) as int;
    assert(s.skip(start + addr.len()) =~= p + pad);
    if wire::has_varint(cut) {
        wire::lemma_varint_front_extend(cut, rest);
        let second = cut.skip(t.len() as int);
        assert(second + rest =~= s.skip(t.len() as int));
        if wire::has_varint(second) {
            wire::lemma_varint_front_extend(second, rest);
            if start + addr.len() <= k {
                let third = cut.skip(start + addr.len());
                assert(third + rest =~= s.skip(start + addr.len()));
                if wire::has_varint(third) {
                    wire::lemma_varint_front_extend(third, rest);
                }
            }
        }
    }
}

} // verus!
