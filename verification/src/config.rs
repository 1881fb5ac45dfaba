//! Client configuration.

use vstd::prelude::*;

use crate::text;
use crate::time::TimeSpan;

verus! {

/// QUIC transport tuning. [`Default`] gives the built-in values.
#[derive(Debug)]
pub struct QuicParams {
    /// Per-stream flow-control receive window, in bytes.
    pub stream_receive_window: u64,
    /// Whole-connection flow-control receive window, in bytes.
    pub connection_receive_window: u64,
    /// Idle timeout before the connection is torn down.
    pub max_idle_timeout: TimeSpan,
    /// Keep-alive ping interval (keeps the connection warm between requests).
    pub keep_alive_interval: TimeSpan,
    /// Initial RTT estimate used before the first measurement.
    pub initial_rtt: TimeSpan,
    /// Disable QUIC Path MTU Discovery.
    pub disable_path_mtu_discovery: bool,
}

impl QuicParams {
    /// The built-in values: windows of 8 MiB per stream and 20 MiB per connection, 30 s until
    /// an idle connection is dropped, a ping every 10 s, and a first guess of 100 ms for the
    /// round trip.
    pub open spec fn is_default(self) -> bool {
        &&& self.stream_receive_window == 8 * 1024 * 1024
        &&& self.connection_receive_window == 20 * 1024 * 1024
        &&& self.max_idle_timeout == TimeSpan { secs: 30, nanos: 0 }
        &&& self.keep_alive_interval == TimeSpan { secs: 10, nanos: 0 }
        &&& self.initial_rtt == TimeSpan { secs: 0, nanos: 100_000_000 }
        &&& !self.disable_path_mtu_discovery
    }
}

impl Clone for QuicParams {
    fn clone(&self) -> (q: QuicParams)
        ensures
            q == *self,
    {
        QuicParams {
            stream_receive_window: self.stream_receive_window,
            connection_receive_window: self.connection_receive_window,
            max_idle_timeout: self.max_idle_timeout,
            keep_alive_interval: self.keep_alive_interval,
            initial_rtt: self.initial_rtt,
            disable_path_mtu_discovery: self.disable_path_mtu_discovery,
        }
    }
}

impl Default for QuicParams {
    fn default() -> (q: QuicParams)
        ensures
            q.is_default(),
    {
        QuicParams {
            stream_receive_window: 8 * 1024 * 1024,
            connection_receive_window: 8 * 1024 * 1024 * 5 / 2,
            max_idle_timeout: TimeSpan::from_secs(30),
            keep_alive_interval: TimeSpan::from_secs(10),
            initial_rtt: TimeSpan::from_millis(100),
            disable_path_mtu_discovery: false,
        }
    }
}

/// Hysteria2 client configuration.
///
/// Construct with [`Default::default`] and override the fields you need.
#[derive(Debug)]
pub struct Config {
    /// Server address, `host:port`. With port hopping, the port may be a range
    /// (e.g. `host:20000-50000`); see also [`Config::hop_ports`].
    pub server_addr: String,
    /// TLS SNI / server name. If empty, the host part of `server_addr` is used.
    pub server_name: String,
    /// Authentication string (sent in the `Hysteria-Auth` header).
    pub auth: String,
    /// Skip TLS certificate verification (test/self-signed only).
    pub insecure: bool,
    /// Client receive (download) bandwidth in **bytes/sec**, reported to the
    /// server via `Hysteria-CC-RX`. `0` = unknown: ask the server to use its
    /// own bandwidth detection (and the client uses BBR for sending).
    pub rx_bps: u64,
    /// Client send (upload) bandwidth cap in **bytes/sec**. When `> 0`, the
    /// client uses the Brutal congestion controller for the upload direction;
    /// when `0`, it uses BBR.
    ///
    /// After the handshake the rate is reconciled with the server's `CC-RX`
    /// header: a numeric value clamps Brutal to `min(tx_bps, server Rx)`, while
    /// `auto` switches the upload to BBR.
    pub tx_bps: u64,
    /// Salamander obfuscation pre-shared key. Empty = obfuscation disabled.
    /// Must be at least 4 bytes when set.
    pub obfs_password: String,
    /// Port-hopping port union, e.g. `"20000-50000"` or
    /// `"443,8443,9000-9100"`. Empty = disabled (use the single port from
    /// `server_addr`). When set, datagrams are spread across these ports.
    pub hop_ports: String,
    /// Minimum hop interval in seconds. `0` selects the default (30s).
    pub hop_interval_min_secs: u64,
    /// Maximum hop interval in seconds. `0` makes the interval fixed at the min.
    pub hop_interval_max_secs: u64,
    /// Fast-open: return the proxied TCP stream before the server's response
    /// (validated lazily on first read). Avoids a round-trip stall. Default on.
    pub fast_open: bool,
    /// Pin the server certificate to this SHA-256 fingerprint (hex, optional
    /// `:` separators). Empty = no pinning. Verified in addition to (or, with
    /// `insecure`, instead of) the normal chain.
    pub pin_sha256: String,
    /// Extra trusted root CA(s) in PEM, appended to the system roots. Empty =
    /// system roots only.
    pub ca_pem: String,
    /// QUIC transport tuning.
    pub quic: QuicParams,
}

impl Clone for Config {
    fn clone(&self) -> (c: Config)
        ensures
            c.server_addr@ == self.server_addr@,
            c.server_name@ == self.server_name@,
            c.auth@ == self.auth@,
            c.insecure == self.insecure,
            c.rx_bps == self.rx_bps,
            c.tx_bps == self.tx_bps,
            c.obfs_password@ == self.obfs_password@,
            c.hop_ports@ == self.hop_ports@,
            c.hop_interval_min_secs == self.hop_interval_min_secs,
            c.hop_interval_max_secs == self.hop_interval_max_secs,
            c.fast_open == self.fast_open,
            c.pin_sha256@ == self.pin_sha256@,
            c.ca_pem@ == self.ca_pem@,
            c.quic == self.quic,
    {
        Config {
            server_addr: self.server_addr.clone(),
            server_name: self.server_name.clone(),
            auth: self.auth.clone(),
            insecure: self.insecure,
            rx_bps: self.rx_bps,
            tx_bps: self.tx_bps,
            obfs_password: self.obfs_password.clone(),
            hop_ports: self.hop_ports.clone(),
            hop_interval_min_secs: self.hop_interval_min_secs,
            hop_interval_max_secs: self.hop_interval_max_secs,
            fast_open: self.fast_open,
            pin_sha256: self.pin_sha256.clone(),
            ca_pem: self.ca_pem.clone(),
            quic: self.quic.clone(),
        }
    }
}

impl Default for Config {
    fn default() -> (c: Config)
        ensures
            c.server_addr@.len() == 0,
            c.server_name@.len() == 0,
            c.auth@.len() == 0,
            !c.insecure,
            c.rx_bps == 0,
            c.tx_bps == 0,
            c.obfs_password@.len() == 0,
            c.hop_ports@.len() == 0,
            c.hop_interval_min_secs == 0,
            c.hop_interval_max_secs == 0,
            c.fast_open,
            c.pin_sha256@.len() == 0,
            c.ca_pem@.len() == 0,
            c.quic.is_default(),
    {
        Config {
            server_addr: String::new(),
            server_name: String::new(),
            auth: String::new(),
            insecure: false,
            rx_bps: 0,
            tx_bps: 0,
            obfs_password: String::new(),
            hop_ports: String::new(),
            hop_interval_min_secs: 0,
            hop_interval_max_secs: 0,
            fast_open: true,
            pin_sha256: String::new(),
            ca_pem: String::new(),
            quic: QuicParams::default(),
        }
    }
}

/// The host portion of an address: everything before the last `:`, or all of it if there is
/// none.
pub open spec fn host_of(addr: Seq<char>) -> Seq<char> {
    let colon = text::rfind(addr, ':');
    if colon >= 0 {
        addr.take(colon)
    } else {
        addr
    }
}

/// The port portion of an address: everything after the last `:`, if there is one.
pub open spec fn port_of(addr: Seq<char>) -> Option<Seq<char>> {
    let colon = text::rfind(addr, ':');
    if colon >= 0 {
        Some(addr.skip(colon + 1))
    } else {
        None
    }
}

/// Split an address at its last `:`.
fn rsplit_colon(addr: &str) -> (r: Option<(String, String)>)
    ensures
        match r {
            Some((h, p)) => h@ == host_of(addr@) && port_of(addr@) == Some(p@),
            None => host_of(addr@) == addr@ && port_of(addr@) is None,
        },
{
    let chars = text::chars_of(addr);
    let n: usize = chars.len();
    match text::rfind_char(chars.as_slice(), ':') {
        Some(i) => {
            let h = addr.substring_char(0, i).to_owned();
            let p = addr.substring_char(i + 1, n).to_owned();
            assert(h@ =~= addr@.take(i as int));
            assert(p@ =~= addr@.skip(i + 1));
            Some((h, p))
        },
        None => None,
    }
}

impl Config {
    /// The name that the server's certificate must be for.
    pub fn resolved_server_name(&self) -> (s: String)
        ensures
            self.server_name@.len() > 0 ==> s@ == self.server_name@,
            self.server_name@.len() == 0 ==> s@ == host_of(self.server_addr@),
    {
        if !self.server_name.as_str().is_empty() {
            return self.server_name.clone();
        }
        self.host_part()
    }

    /// The host portion of `server_addr` (everything before the last `:`).
    pub fn host_part(&self) -> (s: String)
        ensures
            s@ == host_of(self.server_addr@),
    {
        match rsplit_colon(self.server_addr.as_str()) {
            Some((h, _)) => h,
            None => self.server_addr.clone(),
        }
    }

    /// The port portion of `server_addr` (everything after the last `:`), if it has one.
    pub fn port_part(&self) -> (s: Option<String>)
        ensures
            match s {
                Some(p) => port_of(self.server_addr@) == Some(p@),
                None => port_of(self.server_addr@) is None,
            },
    {
        match rsplit_colon(self.server_addr.as_str()) {
            Some((_, p)) => Some(p),
            None => None,
        }
    }
}

/// An address is split at its last colon, whatever stands before it; without one, all of it is
/// the host.
pub proof fn law_host_and_port(host: Seq<char>, port: Seq<char>)
    requires
        !port.contains(':'),
    ensures
        host_of(host + seq![':'] + port) == host,
        port_of(host + seq![':'] + port) == Some(port),
        host_of(port) == port,
        port_of(port) is None,
{
    let addr = host + seq![':'] + port;
    text::law_rfind(host, ':', port);
    assert(addr.take(host.len() as int) =~= host);
    assert(addr.skip((host.len() + 1) as int) =~= port);
}

/// The built-in values, in figures.
pub proof fn law_default_params(q: QuicParams)
    requires
        q.is_default(),
    ensures
        q.stream_receive_window == 8_388_608,
        q.connection_receive_window == 20_971_520,
        q.max_idle_timeout.secs == 30 && q.max_idle_timeout.nanos == 0,
        q.keep_alive_interval.secs == 10 && q.keep_alive_interval.nanos == 0,
        q.initial_rtt.secs == 0 && q.initial_rtt.nanos == 100_000_000,
        !q.disable_path_mtu_discovery,
{
}

} // verus!
