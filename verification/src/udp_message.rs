//! The UDP relay message: one UDP datagram, or a fragment of one, inside a QUIC datagram.
//!
//! Wire format, integers big-endian:
//! `session(u32) | packet(u16) | fragment(u8) | fragments(u8) | varint(addr_len) | addr | data`.

use vstd::prelude::*;
use vstd::string::*;
use vstd::utf8::*;

use crate::text;
use crate::wire;

verus! {

/// A UDP datagram encapsulated for relay over QUIC's unreliable datagram channel.
#[derive(Debug)]
pub struct UdpMessage {
    pub session_id: u32,
    pub packet_id: u16,
    pub frag_id: u8,
    pub frag_count: u8,
    pub addr: String,
    pub data: Vec<u8>,
}

/// What a `UdpMessage` says.
#[verifier::ext_equal]
pub struct Message {
    pub session_id: u32,
    pub packet_id: u16,
    pub frag_id: u8,
    pub frag_count: u8,
    pub addr: Seq<char>,
    pub data: Seq<u8>,
}

impl View for UdpMessage {
    type V = Message;

    open spec fn view(&self) -> Message {
        Message {
            session_id: self.session_id,
            packet_id: self.packet_id,
            frag_id: self.frag_id,
            frag_count: self.frag_count,
            addr: self.addr@,
            data: self.data@,
        }
    }
}

impl Clone for UdpMessage {
    fn clone(&self) -> (r: Self)
        ensures
            r@ == self@,
    {
        let data = self.data.clone();
        assert(data@ =~= self.data@);
        UdpMessage {
            session_id: self.session_id,
            packet_id: self.packet_id,
            frag_id: self.frag_id,
            frag_count: self.frag_count,
            addr: self.addr.clone(),
            data,
        }
    }
}

impl Message {
    /// The address as it goes on the wire.
    pub open spec fn addr_bytes(self) -> Seq<u8> {
        encode_utf8(self.addr)
    }

    /// Size of everything before the payload.
    pub open spec fn header_len(self) -> nat {
        8 + wire::varint_width(self.addr_bytes().len()) + self.addr_bytes().len()
    }

    /// Size of the whole message on the wire.
    pub open spec fn wire_len(self) -> nat {
        self.header_len() + self.data.len()
    }

    /// The bytes before the payload.
    pub open spec fn header(self) -> Seq<u8> {
        wire::be_bytes(self.session_id as nat, 4) + wire::be_bytes(self.packet_id as nat, 2) + seq![
            self.frag_id,
            self.frag_count,
        ] + wire::varint_bytes(self.addr_bytes().len() as u64) + self.addr_bytes()
    }

    /// The message on the wire.
    pub open spec fn encoding(self) -> Seq<u8> {
        self.header() + self.data
    }

    /// Whether a receiver takes the message: it has an address of an allowed length, and data.
    pub open spec fn acceptable(self) -> bool {
        &&& 0 < self.addr_bytes().len() <= wire::MAX_MESSAGE_LENGTH
        &&& self.data.len() > 0
    }
}

/// The message that the datagram `s` holds, if it holds one.
pub open spec fn decoding(s: Seq<u8>) -> Option<Message> {
    if s.len() < 8 {
        None
    } else {
        match wire::varint_front(s.skip(8)) {
            None => None,
            Some((addr_len, n)) => {
                let start = (8 + n) as int;
                let end = start + addr_len;
                if 0 < addr_len <= wire::MAX_MESSAGE_LENGTH && end < s.len() && valid_utf8(
                    s.subrange(start, end),
                ) {
                    Some(
                        Message {
                            session_id: wire::be_value(s.subrange(0, 4)) as u32,
                            packet_id: wire::be_value(s.subrange(4, 6)) as u16,
                            frag_id: s[6],
                            frag_count: s[7],
                            addr: decode_utf8(s.subrange(start, end)),
                            data: s.skip(end),
                        },
                    )
                } else {
                    None
                }
            },
        }
    }
}

pub proof fn lemma_header_len(m: Message)
    requires
        m.addr_bytes().len() <= u64::MAX,
    ensures
        m.header().len() == m.header_len(),
        m.encoding().len() == m.wire_len(),
{
    let n = m.addr_bytes().len();
    wire::lemma_be_bytes_len(m.session_id as nat, 4);
    wire::lemma_be_bytes_len(m.packet_id as nat, 2);
    wire::lemma_be_bytes_len(wire::varint_word(n as u64) as nat, wire::varint_width(n));
}

impl UdpMessage {
    /// Size of everything before the payload.
    pub fn header_size(&self) -> (n: usize)
        requires
            self@.header_len() <= usize::MAX,
        ensures
            n == self@.header_len(),
    {
        let len: usize = self.addr.as_str().as_bytes().len();
        4 + 2 + 1 + 1 + wire::varint_len(len as u64) + len
    }

    /// Size of the whole message on the wire.
    pub fn size(&self) -> (n: usize)
        requires
            self@.wire_len() <= usize::MAX,
        ensures
            n == self@.wire_len(),
    {
        self.header_size() + self.data.len()
    }

    /// Size of everything before the payload, or `None` where that is no `usize`.
    pub(crate) fn checked_header_size(&self) -> (n: Option<usize>)
        ensures
            match n {
                Some(n) => n == self@.header_len(),
                None => self@.header_len() > usize::MAX,
            },
    {
        let len: usize = self.addr.as_str().as_bytes().len();
        len.checked_add(8 + wire::varint_len(len as u64))
    }

    /// Size of the whole message, or `None` where that is no `usize`.
    pub(crate) fn checked_size(&self) -> (n: Option<usize>)
        ensures
            match n {
                Some(n) => n == self@.wire_len(),
                None => self@.wire_len() > usize::MAX,
            },
    {
        match self.checked_header_size() {
            Some(h) => h.checked_add(self.data.len()),
            None => None,
        }
    }

    /// Serialize into `buf`, returning the number of bytes written, or `None`
    /// if `buf` is too small.
    pub fn serialize(&self, buf: &mut [u8]) -> (r: Option<usize>)
        ensures
            match r {
                Some(n) => {
                    &&& n == self@.wire_len() <= old(buf)@.len()
                    &&& final(buf)@ == self@.encoding() + old(buf)@.skip(n as int)
                    &&& final(buf)@[6] == self.frag_id
                    &&& final(buf)@[7] == self.frag_count
                },
                None => old(buf)@.len() < self@.wire_len() && final(buf)@ == old(buf)@,
            },
    {
        let room: usize = buf.len();
        let total: usize = match self.checked_size() {
            Some(n) => n,
            None => {
                return None;
            },
        };
        if room < total {
            return None;
        }
        let addr = self.addr.as_str().as_bytes();
        let addr_len: usize = addr.len();
        let ghost before = buf@;
        let id: u64 = self.session_id as u64;
        let packet: u64 = self.packet_id as u64;
        proof {
            lemma_header_len(self@);
            wire::lemma_be_bytes_spelled(id);
            wire::lemma_be_bytes_spelled(packet);
        }
        buf[0] = (id >> 24) as u8;
        buf[1] = (id >> 16) as u8;
        buf[2] = (id >> 8) as u8;
        buf[3] = id as u8;
        buf[4] = (packet >> 8) as u8;
        buf[5] = packet as u8;
        buf[6] = self.frag_id;
        buf[7] = self.frag_count;
        let ghost fixed = wire::be_bytes(self.session_id as nat, 4) + wire::be_bytes(
            self.packet_id as nat,
            2,
        ) + seq![self.frag_id, self.frag_count];
        assert(buf@ =~= fixed + before.skip(8));
        let ghost tagged = fixed + wire::varint_bytes(addr_len as u64);
        let n: usize;
        {
            let (_, tail) = buf.split_at_mut(8);
            n = wire::put_varint_slice(tail, addr_len as u64);
        }
        proof {
            wire::lemma_be_bytes_len(
                wire::varint_word(addr_len as u64) as nat,
                wire::varint_width(addr_len as nat),
            );
        }
        let at: usize = 8 + n;
        assert(buf@ =~= tagged + before.skip(at as int));
        wire::copy_into(buf, at, addr);
        assert(buf@ =~= self@.header() + before.skip(at + addr_len));
        wire::copy_into(buf, at + addr_len, self.data.as_slice());
        assert(buf@ =~= self@.encoding() + before.skip(total as int));
        proof {
            law_message_layout(self@);
        }
        Some(total)
    }

    /// Parse a message from a complete datagram.
    pub fn parse(msg: &[u8]) -> (r: Option<UdpMessage>)
        ensures
            match r {
                Some(m) => {
                    &&& decoding(msg@) == Some(m@)
                    &&& m.frag_id == msg@[6]
                    &&& m.frag_count == msg@[7]
                },
                None => decoding(msg@) is None,
            },
    {
        if msg.len() < 8 {
            return None;
        }
        let session_id: u32 = wire::be_u32(msg[0], msg[1], msg[2], msg[3]);
        let packet_id: u16 = wire::be_u16(msg[4], msg[5]);
        let frag_id: u8 = msg[6];
        let frag_count: u8 = msg[7];
        assert(msg@.subrange(0, 4) =~= seq![msg@[0], msg@[1], msg@[2], msg@[3]]);
        assert(msg@.subrange(4, 6) =~= seq![msg@[4], msg@[5]]);
        let tail = vstd::slice::slice_subrange(msg, 8, msg.len());
        assert(tail@ =~= msg@.skip(8));
        let (addr_len, n): (u64, usize) = match wire::get_varint(tail) {
            Some(v) => v,
            None => {
                return None;
            },
        };
        if addr_len == 0 || addr_len > wire::MAX_MESSAGE_LENGTH {
            return None;
        }
        let addr_start: usize = 8 + n;
        if msg.len() - addr_start <= addr_len as usize {
            return None;
        }
        let addr_end: usize = addr_start + addr_len as usize;
        let addr = match text::string_from_utf8(
            vstd::slice::slice_to_vec(vstd::slice::slice_subrange(msg, addr_start, addr_end)),
        ) {
            Some(s) => s,
            None => {
                return None;
            },
        };
        let data = vstd::slice::slice_to_vec(
            vstd::slice::slice_subrange(msg, addr_end, msg.len()),
        );
        assert(data@ =~= msg@.skip(addr_end as int));
        Some(UdpMessage { session_id, packet_id, frag_id, frag_count, addr, data })
    }
}

/// Parsing what was serialized gives back the message if it is one that a receiver takes, and
/// nothing otherwise. An address whose length fits no varint is left out.
pub proof fn law_message_round_trip(m: Message)
    requires
        m.addr_bytes().len() < 0x4000_0000_0000_0000,
    ensures
        decoding(m.encoding()) == if m.acceptable() {
            Some(m)
        } else {
            None
        },
{
    let s = m.encoding();
    let a = m.addr_bytes();
    lemma_header_len(m);
    wire::lemma_be_bytes_len(m.session_id as nat, 4);
    wire::lemma_be_bytes_len(m.packet_id as nat, 2);
    wire::law_varint_round_trip(a.len() as u64, a + m.data);
    let n = wire::varint_width(a.len());
    assert(s.skip(8) =~= wire::varint_bytes(a.len() as u64) + (a + m.data));
    if m.acceptable() {
        assert(s.subrange(0, 4) =~= wire::be_bytes(m.session_id as nat, 4));
        assert(s.subrange(4, 6) =~= wire::be_bytes(m.packet_id as nat, 2));
        reveal_with_fuel(vstd::arithmetic::power::pow, 5);
        wire::law_be_round_trip(m.session_id as nat, 4);
        wire::law_be_round_trip(m.packet_id as nat, 2);
        assert(s.subrange((8 + n) as int, (8 + n + a.len()) as int) =~= a);
        assert(s.skip((8 + n + a.len()) as int) =~= m.data);
        encode_utf8_valid_utf8(m.addr);
        encode_utf8_decode_utf8(m.addr);
    }
}

/// Every message that parses is one that a receiver takes, so serializing it and parsing it
/// again gives the same message.
pub proof fn law_parsed_message_reparses(s: Seq<u8>)
    requires
        decoding(s) is Some,
    ensures
        decoding(s)->0.acceptable(),
        decoding(decoding(s)->0.encoding()) == decoding(s),
{
    let (addr_len, n) = wire::varint_front(s.skip(8))->0;
    let bytes = s.subrange((8 + n) as int, (8 + n + addr_len) as int);
    decode_utf8_encode_utf8(bytes);
    law_message_round_trip(decoding(s)->0);
}

/// Where each part of a message stands on the wire, whatever the others are. The integers are
/// big-endian, and nothing stands before, between or after the parts.
pub proof fn law_message_layout(m: Message)
    requires
        encode_utf8(m.addr).len() <= u64::MAX,
    ensures
        ({
            let e = m.encoding();
            let a = encode_utf8(m.addr);
            let start = 8 + wire::varint_width(a.len());
            let end = start + a.len();
            &&& wire::be_value(e.subrange(0, 4)) == m.session_id
            &&& wire::be_value(e.subrange(4, 6)) == m.packet_id
            &&& e[6] == m.frag_id
            &&& e[7] == m.frag_count
            &&& e.subrange(8, start as int) == wire::varint_bytes(a.len() as u64)
            &&& e.subrange(start as int, end as int) == a
            &&& e.skip(end as int) == m.data
            &&& e.len() == end + m.data.len()
            &&& m.header_len() == end
            &&& m.wire_len() == e.len()
        }),
{
    let e = m.encoding();
    let a = encode_utf8(m.addr);
    let start = 8 + wire::varint_width(a.len());
    let end = start + a.len();
    lemma_header_len(m);
    wire::lemma_be_bytes_len(m.session_id as nat, 4);
    wire::lemma_be_bytes_len(m.packet_id as nat, 2);
    wire::lemma_be_bytes_len(
        wire::varint_word(a.len() as u64) as nat,
        wire::varint_width(a.len()),
    );
    assert(e.subrange(0, 4) =~= wire::be_bytes(m.session_id as nat, 4));
    assert(e.subrange(4, 6) =~= wire::be_bytes(m.packet_id as nat, 2));
    reveal_with_fuel(vstd::arithmetic::power::pow, 5);
    wire::law_be_round_trip(m.session_id as nat, 4);
    wire::law_be_round_trip(m.packet_id as nat, 2);
    assert(e.subrange(8, start as int) =~= wire::varint_bytes(a.len() as u64));
    assert(e.subrange(start as int, end as int) =~= a);
    assert(e.skip(end as int) =~= m.data);
}

/// What a datagram must be to hold a message, and where in it each part of the message is found,
/// whatever the others are.
pub proof fn law_message_is_read_off(s: Seq<u8>)
    ensures
        ({
            let front = wire::varint_front(s.skip(8));
            let (len, n) = front->0;
            let start = (8 + n) as int;
            let end = start + len;
            let whole = s.len() >= 8 && front is Some && 0 < len <= 2048 && end < s.len();
            &&& decoding(s) is Some <==> whole && valid_utf8(s.subrange(start, end))
            &&& decoding(s) matches Some(m) ==> {
                &&& m.session_id == wire::be_value(s.subrange(0, 4))
                &&& m.packet_id == wire::be_value(s.subrange(4, 6))
                &&& m.frag_id == s[6]
                &&& m.frag_count == s[7]
                &&& encode_utf8(m.addr) == s.subrange(start, end)
                &&& m.data == s.skip(end)
            }
        }),
{
    if decoding(s) is Some {
        let (len, n) = wire::varint_front(s.skip(8))->0;
        decode_utf8_encode_utf8(s.subrange((8 + n) as int, (8 + n + len) as int));
        wire::lemma_be_value_fits_in(s.subrange(0, 4));
        wire::lemma_be_value_fits_in(s.subrange(4, 6));
    }
}

/// A message says what its fields say, and a receiver takes it exactly if its address has from 1
/// to 2048 bytes and it carries data.
pub proof fn law_message_is_its_fields(m: UdpMessage)
    ensures
        m@.session_id == m.session_id,
        m@.packet_id == m.packet_id,
        m@.frag_id == m.frag_id,
        m@.frag_count == m.frag_count,
        m@.addr == m.addr@,
        m@.data == m.data@,
        m@.acceptable() <==> 1 <= encode_utf8(m.addr@).len() <= 2048 && m.data@.len() >= 1,
{
}

} // verus!
