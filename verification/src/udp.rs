//! UDP relay over QUIC unreliable datagrams.
//!
//! Datagrams off the QUIC connection are parsed into messages and handed to the owning session
//! by session ID. Each session reassembles fragments locally and sends with automatic
//! fragmentation when a payload exceeds the current datagram limit.

use std::collections::HashMap;

use bytes::Bytes;
use vstd::prelude::*;

use crate::buffer;
use crate::defrag;
use crate::defrag::Defragger;
use crate::error::Error;
use crate::fragment;
use crate::random;
use crate::udp_message;
use crate::udp_message::UdpMessage;
use crate::wire;

verus! {

broadcast use vstd::std_specs::hash::group_hash_axioms;

/// Where inbound datagrams go: the open sessions, and the ID of the next one.
#[verifier::ext_equal]
pub ghost struct Sessions<T> {
    pub open: Map<u32, T>,
    pub next_id: u32,
}

/// The session ID that comes `n` sessions after `id`.
pub open spec fn nth_id(id: u32, n: nat) -> u32 {
    ((id + n) % 0x1_0000_0000) as u32
}

/// No two sessions have the same ID unless all the others were given out in between.
pub proof fn law_session_ids_differ(id: u32, n: nat, m: nat)
    requires
        n < m < n + 0x1_0000_0000,
    ensures
        nth_id(id, n) != nth_id(id, m),
        nth_id(nth_id(id, n), 1) == nth_id(id, n + 1),
{
    let a = id + n;
    let b = id + m;
    let k: int = 0x1_0000_0000;
    assert(a % k != b % k) by (nonlinear_arith)
        requires
            a < b < a + k,
            k == 0x1_0000_0000,
    ;
    assert((a % k + 1) % k == (a + 1) % k) by (nonlinear_arith)
        requires
            k == 0x1_0000_0000,
    ;
}

/// Routes inbound UDP datagrams to sessions. `T` is how to reach one.
pub struct UdpSessionManager<T> {
    sessions: HashMap<u32, T>,
    next_id: u32,
}

impl<T> View for UdpSessionManager<T> {
    type V = Sessions<T>;

    closed spec fn view(&self) -> Sessions<T> {
        Sessions { open: self.sessions@, next_id: self.next_id }
    }
}

impl<T> UdpSessionManager<T> {
    /// No sessions yet; the first will have the ID 1.
    pub fn new() -> (m: UdpSessionManager<T>)
        ensures
            m@ == (Sessions::<T> { open: Map::empty(), next_id: 1 }),
    {
        UdpSessionManager { sessions: HashMap::new(), next_id: 1 }
    }

    /// Open a new UDP session with a fresh session ID, to be reached through `tx`.
    pub fn new_session(&mut self, tx: T) -> (s: UdpSession)
        ensures
            s.session() == old(self)@.next_id,
            s.partial() == defrag::Partial::empty(),
            s.wf(),
            final(self)@.open == old(self)@.open.insert(old(self)@.next_id, tx),
            final(self)@.next_id == nth_id(old(self)@.next_id, 1),
    {
        let id: u32 = self.next_id;
        self.next_id = if id == u32::MAX {
            0
        } else {
            id + 1
        };
        self.sessions.insert(id, tx);
        UdpSession { id, defrag: Defragger::default() }
    }

    /// How to reach the session that a message is for; `None` if there is no such session.
    pub fn dispatch(&self, msg: &UdpMessage) -> (r: Option<&T>)
        ensures
            match r {
                Some(tx) => self@.open.contains_key(msg.session_id) && *tx
                    == self@.open[msg.session_id],
                None => !self@.open.contains_key(msg.session_id),
            },
    {
        self.sessions.get(&msg.session_id)
    }

    /// The message in a datagram, and how to reach the session that it is for. Datagrams that
    /// hold no message, or are for no open session, are ignored.
    pub fn route(&self, datagram: &[u8]) -> (r: Option<(&T, UdpMessage)>)
        ensures
            match r {
                Some((tx, msg)) => {
                    &&& udp_message::decoding(datagram@) == Some(msg@)
                    &&& self@.open.contains_key(msg.session_id)
                    &&& *tx == self@.open[msg.session_id]
                },
                None => match udp_message::decoding(datagram@) {
                    Some(m) => !self@.open.contains_key(m.session_id),
                    None => true,
                },
            },
    {
        match UdpMessage::parse(datagram) {
            Some(msg) => {
                match self.dispatch(&msg) {
                    Some(tx) => Some((tx, msg)),
                    None => None,
                }
            },
            None => None,
        }
    }

    /// The session `id` is closed.
    pub fn remove(&mut self, id: u32)
        ensures
            final(self)@.open == old(self)@.open.remove(id),
            final(self)@.next_id == old(self)@.next_id,
    {
        self.sessions.remove(&id);
    }
}

/// What came of sending a datagram.
#[derive(Debug)]
pub enum DatagramOutcome {
    Sent,
    /// It exceeds the limit of the connection, which says so in these words.
    TooLarge(String),
    /// It was not sent, for the given reason.
    Failed(String),
}

/// Whether sending goes on.
#[derive(Debug, Clone, Copy, PartialEq, Eq, Structural)]
pub enum Onward {
    /// With the next datagram, if there is one.
    Next,
    /// It cannot: it would take more fragments than can be numbered.
    TooManyFragments,
}

/// The message that carries `data` to `addr` for the session `id`.
pub open spec fn outbound(id: u32, packet_id: u16, data: Seq<u8>, addr: Seq<char>) -> udp_message::Message {
    udp_message::Message { session_id: id, packet_id, frag_id: 0, frag_count: 1, addr, data }
}

/// The largest datagram that the connection takes, or what it is taken to be if it does not
/// say.
pub open spec fn datagram_limit(max: Option<usize>) -> nat {
    match max {
        Some(n) => n as nat,
        None => wire::MAX_DATAGRAM_FRAME_SIZE as nat,
    }
}

/// How far the sending of a payload has got.
#[verifier::ext_equal]
pub ghost struct SendState {
    /// What is sent.
    pub message: udp_message::Message,
    /// Whether it is tried unfragmented.
    pub whole: bool,
    /// The messages that are still to be sent, in order.
    pub pending: Seq<udp_message::Message>,
}

impl SendState {
    /// The beginning: try the message unfragmented.
    pub open spec fn start(message: udp_message::Message) -> SendState {
        SendState { message, whole: true, pending: seq![message] }
    }

    /// What is sent when that turns out too large: fragments with the packet ID `packet_id`
    /// and of up to `limit` bytes.
    pub open spec fn fragmented(self, packet_id: u16, limit: nat) -> SendState {
        let message = udp_message::Message { packet_id, ..self.message };
        SendState { message, whole: false, pending: fragment::fragments(message, limit) }
    }

    /// How many fragments that is.
    pub open spec fn fragment_count(self, limit: nat) -> nat {
        fragment::fragment_count_spec(self.message, limit)
    }
}

/// The sending of one payload, datagram by datagram.
pub struct Sending {
    message: UdpMessage,
    whole: bool,
    queue: Vec<UdpMessage>,
    next: usize,
}

/// The datagram that holds a message, written in a buffer of `room` bytes.
fn datagram_of(m: &UdpMessage, room: usize) -> (b: Bytes)
    requires
        m@.wire_len() <= room,
    ensures
        buffer::contents(b) == m@.encoding(),
{
    let mut buf: Vec<u8> = vec![0u8; room];
    let n: usize = m.serialize(buf.as_mut_slice()).unwrap();
    proof {
        udp_message::lemma_header_len(m@);
    }
    assert(buf@.len() >= n);
    let written = vstd::slice::slice_subrange(buf.as_slice(), 0, n);
    assert(written@ =~= m@.encoding());
    Bytes::copy_from_slice(written)
}

impl View for Sending {
    type V = SendState;

    closed spec fn view(&self) -> SendState {
        SendState {
            message: self.message@,
            whole: self.whole,
            pending: self.queue@.map_values(|m: UdpMessage| m@).skip(self.next as int),
        }
    }
}

impl Sending {
    /// The state is valid: every message that is still to be sent has a size.
    pub closed spec fn wf(&self) -> bool {
        &&& self.next <= self.queue@.len()
        &&& forall|i: int|
            0 <= i < self.queue@.len() ==> (#[trigger] self.queue@[i])@.wire_len() <= usize::MAX
    }

    /// The next datagram to send, if there is one.
    pub fn next(&mut self) -> (r: Option<Bytes>)
        requires
            old(self).wf(),
        ensures
            final(self).wf(),
            match r {
                Some(b) => {
                    &&& old(self)@.pending.len() > 0
                    &&& buffer::contents(b) == old(self)@.pending[0].encoding()
                    &&& final(self)@ == (SendState {
                        pending: old(self)@.pending.skip(1),
                        ..old(self)@
                    })
                },
                None => old(self)@.pending.len() == 0 && final(self)@ == old(self)@,
            },
    {
        if self.next >= self.queue.len() {
            return None;
        }
        let size: usize = self.queue[self.next].size();
        let room: usize = if self.whole && size < wire::MAX_UDP_SIZE {
            wire::MAX_UDP_SIZE
        } else {
            size
        };
        let b = datagram_of(&self.queue[self.next], room);
        self.next += 1;
        assert(self@.pending =~= old(self)@.pending.skip(1));
        Some(b)
    }

    /// Take in what came of sending the last datagram, where the connection takes datagrams of
    /// up to `max` bytes, if it says so. If the message was too large unfragmented, fragments
    /// with the packet ID `packet_id` are next.
    pub fn on_outcome_with(
        &mut self,
        outcome: DatagramOutcome,
        packet_id: u16,
        max: Option<usize>,
    ) -> (r: Result<Onward, Error>)
        requires
            old(self).wf(),
        ensures
            final(self).wf(),
            is_send_step(
                old(self)@,
                outcome,
                packet_id,
                datagram_limit(max),
                r,
                final(self)@,
            ),
    {
        match outcome {
            DatagramOutcome::Sent => Ok(Onward::Next),
            DatagramOutcome::Failed(why) => {
                if self.whole {
                    Err(Error::protocol_with("send datagram: ", why.as_str()))
                } else {
                    Err(Error::protocol_with("send fragment: ", why.as_str()))
                }
            },
            DatagramOutcome::TooLarge(why) => {
                if !self.whole {
                    return Err(Error::protocol_with("send fragment: ", why.as_str()));
                }
                let max: usize = match max {
                    Some(n) => n,
                    None => wire::MAX_DATAGRAM_FRAME_SIZE as usize,
                };
                if fragment::fragment_count(&self.message, max) > 255 {
                    return Ok(Onward::TooManyFragments);
                }
                self.message.packet_id = packet_id;
                let ghost want = fragment::fragments(self.message@, max as nat);
                let frags = fragment::frag_udp_message(&self.message, max);
                proof {
                    fragment::law_fragments_fit(self.message@, max as nat);
                    let views = frags@.map_values(|m: UdpMessage| m@);
                    assert forall|i: int| 0 <= i < frags@.len() implies (
                    #[trigger] frags@[i])@.wire_len() <= usize::MAX by {
                        assert(views[i] == want[i]);
                    }
                }
                self.whole = false;
                self.queue = frags;
                self.next = 0;
                assert(self@.pending =~= want);
                Ok(Onward::Next)
            },
        }
    }

    /// The same, with a random packet ID other than 0.
    pub fn on_outcome(&mut self, outcome: DatagramOutcome, max: Option<usize>) -> (r: Result<
        Onward,
        Error,
    >)
        requires
            old(self).wf(),
        ensures
            final(self).wf(),
            exists|packet_id: u16|
                packet_id > 0 && #[trigger] is_send_step(
                    old(self)@,
                    outcome,
                    packet_id,
                    datagram_limit(max),
                    r,
                    final(self)@,
                ),
    {
        let packet_id: u16 = random::random_between(1, 65535) as u16;
        self.on_outcome_with(outcome, packet_id, max)
    }
}

/// Whether sending in the state `s` answers `r` to `outcome` and goes on in the state `t`. An
/// unfragmented message that is too large is sent in fragments, unless there would be more than
/// 255; any other failure is an error.
pub open spec fn is_send_step(
    s: SendState,
    outcome: DatagramOutcome,
    packet_id: u16,
    limit: nat,
    r: Result<Onward, Error>,
    t: SendState,
) -> bool {
    match outcome {
        DatagramOutcome::Sent => r == Ok::<Onward, Error>(Onward::Next) && t == s,
        DatagramOutcome::Failed(why) => {
            &&& t == s
            &&& r matches Err(e) && e.is_protocol(
                (if s.whole {
                    "send datagram: "@
                } else {
                    "send fragment: "@
                }) + why@,
            )
        },
        DatagramOutcome::TooLarge(why) => if !s.whole {
            &&& t == s
            &&& r matches Err(e) && e.is_protocol("send fragment: "@ + why@)
        } else if s.fragment_count(limit) > 255 {
            &&& t == s
            &&& r == Ok::<Onward, Error>(Onward::TooManyFragments)
        } else {
            &&& t == s.fragmented(packet_id, limit)
            &&& r == Ok::<Onward, Error>(Onward::Next)
        },
    }
}

/// A UDP relay session. Send and receive datagrams to/from arbitrary
/// destination addresses through the proxy.
pub struct UdpSession {
    id: u32,
    defrag: Defragger,
}

impl UdpSession {
    /// The session ID.
    pub closed spec fn session(&self) -> u32 {
        self.id
    }

    /// What is there of a fragmented datagram.
    pub closed spec fn partial(&self) -> defrag::Partial {
        self.defrag@
    }

    /// The state is valid.
    pub open spec fn wf(&self) -> bool {
        self.partial().wf()
    }

    /// The session ID assigned by the client.
    pub fn id(&self) -> (id: u32)
        ensures
            id == self.session(),
    {
        self.id
    }

    /// Send `data` to `addr` (`host:port`) through the proxy, fragmenting if the
    /// payload exceeds the current QUIC datagram limit.
    pub fn send(&self, data: &[u8], addr: &str) -> (s: Sending)
        requires
            outbound(self.session(), 0, data@, addr@).wire_len() <= usize::MAX,
        ensures
            s.wf(),
            s@ == SendState::start(outbound(self.session(), 0, data@, addr@)),
    {
        let message = UdpMessage {
            session_id: self.id,
            packet_id: 0,
            frag_id: 0,
            frag_count: 1,
            addr: addr.to_owned(),
            data: vstd::slice::slice_to_vec(data),
        };
        let mut queue: Vec<UdpMessage> = Vec::new();
        queue.push(message.clone());
        let s = Sending { message, whole: true, queue, next: 0 };
        assert(s@.pending =~= seq![s.message@]);
        s
    }

    /// Receive a message for this session; `None` means that the session or the connection is
    /// closed. Returns the payload and where it comes from, or `None` if it is a fragment and
    /// more are needed.
    pub fn recv(&mut self, msg: Option<UdpMessage>) -> (r: Result<
        Option<(Vec<u8>, String)>,
        Error,
    >)
        requires
            old(self).wf(),
        ensures
            final(self).wf(),
            final(self).session() == old(self).session(),
            match msg {
                None => {
                    &&& r matches Err(e) && e.is_protocol("udp session closed"@)
                    &&& final(self).partial() == old(self).partial()
                },
                Some(m) => {
                    let (after, answer) = old(self).partial().fed(m@);
                    &&& final(self).partial() == after
                    &&& match answer {
                        Some(full) => r matches Ok(Some(got)) && got.0@ == full.data && got.1@
                            == full.addr,
                        None => r matches Ok(None),
                    }
                },
            },
    {
        match msg {
            None => Err(Error::protocol("udp session closed")),
            Some(m) => {
                match self.defrag.feed(m) {
                    Some(full) => Ok(Some((full.data, full.addr))),
                    None => Ok(None),
                }
            },
        }
    }
}

/// The bytes of each message.
pub open spec fn encodings(ms: Seq<udp_message::Message>) -> Seq<Seq<u8>> {
    ms.map_values(|m: udp_message::Message| m.encoding())
}

/// The messages in some datagrams that hold one each.
pub open spec fn decodings(datagrams: Seq<Seq<u8>>) -> Seq<udp_message::Message> {
    datagrams.map_values(|d: Seq<u8>| udp_message::decoding(d)->0)
}

/// A payload that is sent unfragmented arrives as it was sent, whatever the receiver is waiting
/// for.
pub proof fn law_whole_datagram_arrives(
    p: defrag::Partial,
    id: u32,
    data: Seq<u8>,
    addr: Seq<char>,
)
    requires
        outbound(id, 0, data, addr).acceptable(),
    ensures
        ({
            let m = outbound(id, 0, data, addr);
            &&& udp_message::decoding(m.encoding()) == Some(m)
            &&& p.fed(m) == (p, Some(m))
        }),
{
    udp_message::law_message_round_trip(outbound(id, 0, data, addr));
}

/// A payload that is sent in two or more fragments arrives as it was sent, in whatever order the
/// datagrams come, with the last of them and not before, unless the receiver is already busy
/// with a packet of the same ID and number of fragments.
pub proof fn law_fragmented_datagram_arrives(
    p: defrag::Partial,
    id: u32,
    packet_id: u16,
    data: Seq<u8>,
    addr: Seq<char>,
    limit: nat,
    order: Seq<int>,
)
    requires
        p.wf(),
        outbound(id, packet_id, data, addr).acceptable(),
        2 <= fragment::fragment_count_spec(outbound(id, packet_id, data, addr), limit) <= 255,
        defrag::is_order(
            order,
            fragment::fragment_count_spec(outbound(id, packet_id, data, addr), limit),
        ),
        !(p.pkt_id == packet_id && p.slots.len() == fragment::fragment_count_spec(
            outbound(id, packet_id, data, addr),
            limit,
        )),
    ensures
        ({
            let m = outbound(id, packet_id, data, addr);
            let datagrams = encodings(fragment::fragments(m, limit));
            let n = datagrams.len() as int;
            let answers = defrag::fed_all(
                p,
                defrag::arranged(decodings(datagrams), order),
            ).1;
            &&& forall|i: int|
                0 <= i < n ==> udp_message::decoding(#[trigger] datagrams[i]) is Some
            &&& answers.len() == n
            &&& forall|j: int| 0 <= j < n - 1 ==> (#[trigger] answers[j]) is None
            &&& answers[n - 1] == Some(m)
        }),
{
    let m = outbound(id, packet_id, data, addr);
    let row = fragment::fragments(m, limit);
    let datagrams = encodings(row);
    fragment::law_fragments_fit(m, limit);
    assert forall|i: int| 0 <= i < row.len() implies udp_message::decoding(
        #[trigger] datagrams[i],
    ) == Some(row[i]) by {
        udp_message::law_message_round_trip(row[i]);
    }
    assert(decodings(datagrams) =~= row);
    defrag::law_split_then_join(p, m, limit, order);
    assert((udp_message::Message { frag_id: 0, frag_count: 1, ..m }) =~= m);
}

/// No fragment is too large in its turn: a payload is fragmented once at most as long as the
/// limit of the connection stays.
pub proof fn law_fragments_are_not_too_large(s: SendState, packet_id: u16, limit: nat)
    requires
        s.message.addr_bytes().len() <= u64::MAX,
    ensures
        forall|i: int|
            0 <= i < s.fragmented(packet_id, limit).pending.len() ==> (
            #[trigger] s.fragmented(packet_id, limit).pending[i]).encoding().len() <= limit,
{
    let m = udp_message::Message { packet_id, ..s.message };
    fragment::law_fragments_fit(m, limit);
    assert forall|i: int| 0 <= i < s.fragmented(packet_id, limit).pending.len() implies (
    #[trigger] s.fragmented(packet_id, limit).pending[i]).encoding().len() <= limit by {
        let f = fragment::fragments(m, limit)[i];
        udp_message::lemma_header_len(f);
    }
}

/// What a connection takes, in order, where it refuses only datagrams of more than `limit`
/// bytes, and whether sending ends well. Fragments, if there are any, have the packet ID
/// `packet_id`.
pub open spec fn transmitted(s: SendState, packet_id: u16, limit: nat) -> (Seq<
    udp_message::Message,
>, bool)
    decreases
            if s.whole {
                1int
            } else {
                0int
            },
            s.pending.len(),
{
    if s.pending.len() == 0 {
        (Seq::empty(), true)
    } else if s.pending[0].encoding().len() <= limit {
        let (rest, ok) = transmitted(
            SendState { pending: s.pending.skip(1), ..s },
            packet_id,
            limit,
        );
        (seq![s.pending[0]] + rest, ok)
    } else if s.whole && s.fragment_count(limit) <= 255 {
        transmitted(s.fragmented(packet_id, limit), packet_id, limit)
    } else {
        (Seq::empty(), false)
    }
}

proof fn lemma_all_transmitted(s: SendState, packet_id: u16, limit: nat)
    requires
        forall|i: int|
            0 <= i < s.pending.len() ==> (#[trigger] s.pending[i]).encoding().len() <= limit,
    ensures
        transmitted(s, packet_id, limit) == (s.pending, true),
    decreases s.pending.len(),
{
    if s.pending.len() > 0 {
        let t = SendState { pending: s.pending.skip(1), ..s };
        assert forall|i: int| 0 <= i < t.pending.len() implies (
        #[trigger] t.pending[i]).encoding().len() <= limit by {
            assert(t.pending[i] == s.pending[i + 1]);
        }
        lemma_all_transmitted(t, packet_id, limit);
        assert(seq![s.pending[0]] + t.pending =~= s.pending);
    } else {
        assert(s.pending =~= Seq::empty());
    }
}

/// What is sent arrives. Over a connection that refuses only what exceeds its limit, a payload
/// that can be sent at all ends well: as one datagram with the packet ID 0 if it fits, and as
/// fragments under one packet ID otherwise. All that the connection takes is within the limit
/// and bears the session ID, and fed in order to a receiver that has seen nothing yet, it gives
/// the payload with the last datagram, and nothing before that.
pub proof fn law_sent_payload_arrives(
    id: u32,
    packet_id: u16,
    data: Seq<u8>,
    addr: Seq<char>,
    limit: nat,
)
    requires
        packet_id != 0,
        outbound(id, 0, data, addr).acceptable(),
        outbound(id, 0, data, addr).header_len() < limit,
        fragment::fragment_count_spec(outbound(id, 0, data, addr), limit) <= 255,
    ensures
        ({
            let m = outbound(id, 0, data, addr);
            let (sent, ok) = transmitted(SendState::start(m), packet_id, limit);
            let n = sent.len() as int;
            let answers = defrag::fed_all(
                defrag::Partial::empty(),
                decodings(encodings(sent)),
            ).1;
            &&& ok
            &&& n > 0
            &&& m.wire_len() <= limit ==> sent == seq![m]
            &&& forall|i: int|
                0 <= i < n ==> {
                    &&& (#[trigger] sent[i]).encoding().len() <= limit
                    &&& sent[i].session_id == id
                    &&& sent[i].packet_id == if m.wire_len() <= limit {
                        0
                    } else {
                        packet_id
                    }
                    &&& udp_message::decoding(sent[i].encoding()) == Some(sent[i])
                }
            &&& answers.len() == n
            &&& forall|j: int| 0 <= j < n - 1 ==> (#[trigger] answers[j]) is None
            &&& answers[n - 1] matches Some(full) && full.data == data && full.addr == addr
        }),
{
    let m = outbound(id, 0, data, addr);
    let start = SendState::start(m);
    udp_message::lemma_header_len(m);
    if m.wire_len() <= limit {
        lemma_all_transmitted(start, packet_id, limit);
        law_whole_datagram_arrives(defrag::Partial::empty(), id, data, addr);
        let sent = seq![m];
        let got = decodings(encodings(sent));
        assert(got =~= sent);
        assert(got.drop_last() =~= Seq::empty());
        assert(defrag::fed_all(defrag::Partial::empty(), got.drop_last()).1 =~= Seq::empty());
    } else {
        let f = outbound(id, packet_id, data, addr);
        let t = start.fragmented(packet_id, limit);
        assert(t.message =~= f);
        let row = fragment::fragments(f, limit);
        let n = row.len();
        law_fragments_are_not_too_large(start, packet_id, limit);
        lemma_all_transmitted(t, packet_id, limit);
        assert(transmitted(start, packet_id, limit) == (row, true));
        fragment::law_fragments_fit(f, limit);
        let piece = fragment::piece_len(f, limit);
        fragment::lemma_pieces(data.len(), piece, 0);
        let order = Seq::new(n, |i: int| i);
        law_fragmented_datagram_arrives(
            defrag::Partial::empty(),
            id,
            packet_id,
            data,
            addr,
            limit,
            order,
        );
        let datagrams = encodings(row);
        assert forall|i: int| 0 <= i < n implies udp_message::decoding(
            (#[trigger] row[i]).encoding(),
        ) == Some(row[i]) by {
            assert(fragment::fragments(f, limit)[i].acceptable());
            udp_message::law_message_round_trip(row[i]);
        }
        assert(decodings(datagrams) =~= row);
        assert(defrag::arranged(decodings(datagrams), order) =~= decodings(datagrams));
    }
}

/// Session IDs count up, and from the largest on again from 0.
pub proof fn law_next_session_id(id: u32)
    ensures
        id < 0xffff_ffff ==> nth_id(id, 1) == id + 1,
        id == 0xffff_ffff ==> nth_id(id, 1) == 0,
        nth_id(id, 0) == id,
{
}

/// What is sent out bears the session, the destination and the payload, as a message in one
/// piece.
pub proof fn law_outbound(id: u32, packet_id: u16, data: Seq<u8>, addr: Seq<char>)
    ensures
        ({
            let m = outbound(id, packet_id, data, addr);
            &&& m.session_id == id
            &&& m.packet_id == packet_id
            &&& m.frag_id == 0
            &&& m.frag_count == 1
            &&& m.addr == addr
            &&& m.data == data
        }),
{
}

/// A connection that names its limit is taken at its word; one that does not is taken to carry
/// 1200 bytes.
pub proof fn law_datagram_limit(n: usize)
    ensures
        datagram_limit(Some(n)) == n,
        datagram_limit(None) == 1200,
{
}

/// Sending begins with the message in one piece. In fragments it is the same message under
/// another packet ID, cut to the limit.
pub proof fn law_sending(m: udp_message::Message, s: SendState, packet_id: u16, limit: nat)
    ensures
        SendState::start(m).message == m,
        SendState::start(m).whole,
        SendState::start(m).pending == seq![m],
        ({
            let t = s.fragmented(packet_id, limit);
            &&& !t.whole
            &&& t.message.packet_id == packet_id
            &&& t.message.session_id == s.message.session_id
            &&& t.message.frag_id == s.message.frag_id
            &&& t.message.frag_count == s.message.frag_count
            &&& t.message.addr == s.message.addr
            &&& t.message.data == s.message.data
            &&& t.pending == fragment::fragments(t.message, limit)
        }),
        s.fragment_count(limit) == fragment::fragments(s.message, limit).len(),
{
}

/// What follows from each outcome. Only a message in one piece that is too large is cut, and only
/// into as many fragments as can be numbered; sending otherwise goes on, or fails with the reason
/// that was given, and what is still to be sent stays as it was.
pub proof fn law_send_step(
    s: SendState,
    outcome: DatagramOutcome,
    packet_id: u16,
    limit: nat,
    r: Result<Onward, Error>,
    t: SendState,
)
    requires
        is_send_step(s, outcome, packet_id, limit, r, t),
    ensures
        ({
            let cut = outcome is TooLarge && s.whole;
            let n = fragment::fragments(s.message, limit).len();
            &&& r is Err <==> outcome is Failed || (outcome is TooLarge && !s.whole)
            &&& !cut || n > 255 ==> t == s
            &&& outcome is Sent ==> (r matches Ok(Onward::Next))
            &&& cut && n > 255 ==> (r matches Ok(Onward::TooManyFragments))
            &&& cut && n <= 255 ==> (r matches Ok(Onward::Next))
            &&& cut && n <= 255 ==> t == s.fragmented(packet_id, limit)
            &&& outcome matches DatagramOutcome::Failed(why) ==> (r matches Err(e) && e matches
                Error::Protocol(text) && text@ == (if s.whole {
                "send datagram: "@
            } else {
                "send fragment: "@
            }) + why@)
            &&& outcome matches DatagramOutcome::TooLarge(why) ==> (r matches Err(e) ==> (
            e matches Error::Protocol(text) && text@ == "send fragment: "@ + why@))
        }),
{
}

/// Messages are encoded and decoded one by one, in order.
pub proof fn law_one_by_one(ms: Seq<udp_message::Message>, datagrams: Seq<Seq<u8>>, i: int)
    ensures
        encodings(ms).len() == ms.len(),
        decodings(datagrams).len() == datagrams.len(),
        0 <= i < ms.len() ==> encodings(ms)[i] == ms[i].encoding(),
        0 <= i < datagrams.len() && udp_message::decoding(datagrams[i]) is Some
            ==> udp_message::decoding(datagrams[i]) == Some(decodings(datagrams)[i]),
{
}

} // verus!
