//! A connected client.

use bytes::Bytes;
use vstd::prelude::*;
use vstd::string::*;

use crate::buffer;
use crate::error::Error;
use crate::padding;
use crate::stream;
use crate::stream::DuplexStream;
use crate::tcp;
use crate::udp;
use crate::udp::{UdpSession, UdpSessionManager};
use crate::udp_message;
use crate::udp_message::UdpMessage;

verus! {

/// The code that the connection is closed with when the client goes away: HTTP/3's
/// `H3_NO_ERROR`.
pub const CLOSE_CODE: u32 = 0x100;

/// What to do to open a proxied TCP connection.
pub struct TcpOpening {
    /// What to send on a new stream.
    pub request: Bytes,
    /// The reading side of that stream.
    pub stream: DuplexStream,
    /// Whether to wait for the response before handing out the stream.
    pub wait: bool,
}

/// What a connected client goes by.
pub ghost struct ClientState<T> {
    pub fast_open: bool,
    pub server_rx: u64,
    /// The UDP sessions, if the server relays UDP.
    pub udp: Option<udp::Sessions<T>>,
}

/// A connected Hysteria2 client. Open one proxied TCP connection per
/// [`tcp_connect`](Self::tcp_connect), or a UDP session per [`udp`](Self::udp).
/// `T` is how to reach a UDP session.
pub struct HysteriaClient<T> {
    fast_open: bool,
    server_rx: u64,
    udp_sm: Option<UdpSessionManager<T>>,
}

impl<T> View for HysteriaClient<T> {
    type V = ClientState<T>;

    closed spec fn view(&self) -> ClientState<T> {
        ClientState {
            fast_open: self.fast_open,
            server_rx: self.server_rx,
            udp: match self.udp_sm {
                Some(m) => Some(m@),
                None => None,
            },
        }
    }
}

impl<T> HysteriaClient<T> {
    /// A client of a server that relays UDP if `udp_enabled` and can receive `server_rx` bytes
    /// per second.
    pub fn new(fast_open: bool, udp_enabled: bool, server_rx: u64) -> (c: HysteriaClient<T>)
        ensures
            c@ == (ClientState::<T> {
                fast_open,
                server_rx,
                udp: if udp_enabled {
                    Some(udp::Sessions { open: Map::empty(), next_id: 1 })
                } else {
                    None
                },
            }),
    {
        let udp_sm: Option<UdpSessionManager<T>> = if udp_enabled {
            Some(UdpSessionManager::new())
        } else {
            None
        };
        HysteriaClient { fast_open, server_rx, udp_sm }
    }

    /// Open a proxied TCP connection to `address` (`host:port`).
    ///
    /// With fast-open, the stream is there as soon as the request is written; the server's
    /// response is validated lazily on the first read. With fast-open disabled, the response
    /// is awaited, so a server rejection surfaces immediately.
    pub fn tcp_connect(&self, address: &str) -> (r: TcpOpening)
        requires
            address.spec_bytes().len() + 1024 <= usize::MAX / 4,
        ensures
            exists|pad: Seq<u8>| #[trigger]
                padding::is_padding(pad, 64, 512) && buffer::contents(r.request)
                    == tcp::tcp_request(address.spec_bytes(), pad),
            r.stream.wf(),
            r.stream@ == stream::ReadState::start(),
            r.wait == !self@.fast_open,
    {
        TcpOpening {
            request: tcp::encode_tcp_request(address),
            stream: DuplexStream::new(),
            wait: !self.fast_open,
        }
    }

    /// Open a new UDP relay session, to be reached through `tx`. Returns an error if the server
    /// did not advertise UDP support during authentication.
    pub fn udp(&mut self, tx: T) -> (r: Result<UdpSession, Error>)
        ensures
            final(self)@.fast_open == old(self)@.fast_open,
            final(self)@.server_rx == old(self)@.server_rx,
            match old(self)@.udp {
                Some(s) => {
                    &&& r matches Ok(session) && session.wf() && session.session() == s.next_id
                        && session.partial() == crate::defrag::Partial::empty()
                    &&& final(self)@.udp == Some(
                        udp::Sessions {
                            open: s.open.insert(s.next_id, tx),
                            next_id: udp::nth_id(s.next_id, 1),
                        },
                    )
                },
                None => {
                    &&& r matches Err(e) && e.is_protocol("UDP relay not enabled by server"@)
                    &&& final(self)@.udp is None
                },
            },
    {
        match &mut self.udp_sm {
            Some(sm) => Ok(sm.new_session(tx)),
            None => Err(Error::protocol("UDP relay not enabled by server")),
        }
    }

    /// The message in an inbound datagram, and how to reach the session that it is for, if there
    /// is such a session.
    pub fn route(&self, datagram: &[u8]) -> (r: Option<(&T, UdpMessage)>)
        ensures
            match r {
                Some((tx, msg)) => {
                    &&& udp_message::decoding(datagram@) == Some(msg@)
                    &&& self@.udp matches Some(s) && s.open.contains_key(msg.session_id) && *tx
                        == s.open[msg.session_id]
                },
                None => match (self@.udp, udp_message::decoding(datagram@)) {
                    (Some(s), Some(m)) => !s.open.contains_key(m.session_id),
                    _ => true,
                },
            },
    {
        match &self.udp_sm {
            Some(sm) => sm.route(datagram),
            None => None,
        }
    }

    /// The UDP session `id` is closed.
    pub fn close_session(&mut self, id: u32)
        ensures
            final(self)@.fast_open == old(self)@.fast_open,
            final(self)@.server_rx == old(self)@.server_rx,
            final(self)@.udp == match old(self)@.udp {
                Some(s) => Some(udp::Sessions { open: s.open.remove(id), next_id: s.next_id }),
                None => None,
            },
    {
        match &mut self.udp_sm {
            Some(sm) => {
                sm.remove(id);
            },
            None => {},
        }
    }

    /// Whether the server advertised UDP relay support.
    pub fn udp_enabled(&self) -> (b: bool)
        ensures
            b == (self@.udp is Some),
    {
        self.udp_sm.is_some()
    }

    /// The server's advertised receive rate in bytes/sec (0 = unlimited/auto).
    pub fn server_rx(&self) -> (n: u64)
        ensures
            n == self@.server_rx,
    {
        self.server_rx
    }
}

} // verus!
