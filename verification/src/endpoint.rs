//! From the configuration to the addresses, ports and parameters of a connection.

use vstd::prelude::*;
use vstd::utf8::*;

use crate::addr;
use crate::addr::{IpAddress, SocketAddress};
use crate::brutal::UploadControl;
use crate::config;
use crate::config::{Config, QuicParams};
use crate::error::Error;
use crate::obfs;
use crate::obfs::Salamander;
use crate::ports;
use crate::socket;
use crate::socket::HopConfig;
use crate::time::TimeSpan;
use crate::tls;
use crate::tls::CertPolicy;
use crate::wire;

verus! {

/// Default port-hop interval when the config leaves it at 0.
pub const DEFAULT_HOP_INTERVAL_SECS: u64 = 30;

/// The largest number that a QUIC varint holds.
pub const MAX_VARINT: u64 = 0x3fff_ffff_ffff_ffff;

/// The port union that a configuration asks for: explicit `hop_ports` win; otherwise it is the
/// port from `server_addr`, which may itself be a range like `host:20000-50000`.
pub open spec fn ports_wanted(config: Config) -> Option<Seq<char>> {
    if config.hop_ports@.len() > 0 {
        Some(config.hop_ports@)
    } else {
        config::port_of(config.server_addr@)
    }
}

/// The candidate ports of the server, sorted. The first is the one to dial.
pub fn endpoint_ports(config: &Config) -> (r: Result<Vec<u16>, Error>)
    ensures
        match r {
            Ok(ports) => ports_wanted(*config) matches Some(spec) && ports::is_port_list(
                spec,
                ports@,
            ),
            Err(e) => match ports_wanted(*config) {
                None => e.is_config("server_addr missing port: "@ + config.server_addr@),
                Some(spec) => {
                    &&& !ports::is_port_union(spec)
                    &&& e.is_config("invalid ports: "@ + spec)
                },
            },
        },
        config.hop_ports@.len() > 0 ==> match r {
            Ok(ports) => ports::is_port_list(config.hop_ports@, ports@),
            Err(_) => !ports::is_port_union(config.hop_ports@),
        },
{
    let spec: String = if !config.hop_ports.as_str().is_empty() {
        config.hop_ports.clone()
    } else {
        match config.port_part() {
            Some(p) => p,
            None => {
                return Err(
                    Error::config_with("server_addr missing port: ", config.server_addr.as_str()),
                );
            },
        }
    };
    match ports::parse_ports(spec.as_str()) {
        Some(ports) => Ok(ports),
        None => Err(Error::config_with("invalid ports: ", spec.as_str())),
    }
}

/// The bounds of the hop interval in seconds: the lower one is the default if it is 0, and the
/// upper one is the lower one if it is 0 or below it.
pub open spec fn hop_interval(min: u64, max: u64) -> (u64, u64) {
    let low = if min == 0 {
        DEFAULT_HOP_INTERVAL_SECS
    } else {
        min
    };
    (
        low,
        if max == 0 || max < low {
            low
        } else {
            max
        },
    )
}

/// The addresses of `ports` at `ip`.
pub open spec fn addresses(ip: IpAddress, ports: Seq<u16>) -> Seq<SocketAddress> {
    ports.map_values(|p: u16| addr::socket_address(ip, p))
}

/// Whether `hop` is how to hop between `ports` at `ip`. With one port there is nothing to hop
/// between.
pub open spec fn is_hop(hop: Option<HopConfig>, config: Config, ip: IpAddress, ports: Seq<u16>) -> bool {
    let (min, max) = hop_interval(config.hop_interval_min_secs, config.hop_interval_max_secs);
    match hop {
        None => ports.len() <= 1,
        Some(h) => {
            &&& ports.len() > 1
            &&& h.addrs@ == addresses(ip, ports)
            &&& h.interval_min == (TimeSpan { secs: min, nanos: 0 })
            &&& h.interval_max == (TimeSpan { secs: max, nanos: 0 })
        },
    }
}

/// The address to dial and, if more than one port is in play, how to hop between them, where
/// the server's host was found to be `found`.
pub fn resolved_endpoint(config: &Config, ports: &[u16], found: Option<IpAddress>) -> (r: Result<
    (SocketAddress, Option<HopConfig>),
    Error,
>)
    requires
        ports@.len() > 0,
    ensures
        match r {
            Ok((canonical, hop)) => found matches Some(ip) && canonical == addr::socket_address(
                ip,
                ports@[0],
            ) && is_hop(hop, *config, ip, ports@),
            Err(e) => found is None && e.is_config(
                "could not resolve server host: "@ + config::host_of(config.server_addr@),
            ),
        },
{
    let ip: IpAddress = match found {
        Some(ip) => ip,
        None => {
            let host = config.host_part();
            return Err(Error::config_with("could not resolve server host: ", host.as_str()));
        },
    };
    let canonical = SocketAddress::new(ip, ports[0]);
    if ports.len() <= 1 {
        return Ok((canonical, None));
    }
    let mut addrs: Vec<SocketAddress> = Vec::new();
    let mut i: usize = 0;
    while i < ports.len()
        invariant
            i <= ports@.len(),
            addrs@.len() == i,
            forall|j: int|
                0 <= j < i ==> #[trigger] addrs@[j] == addr::socket_address(ip, ports@[j]),
        decreases ports@.len() - i,
    {
        addrs.push(SocketAddress::new(ip, ports[i]));
        i += 1;
    }
    assert(addrs@ =~= addresses(ip, ports@));
    let min: u64 = if config.hop_interval_min_secs == 0 {
        DEFAULT_HOP_INTERVAL_SECS
    } else {
        config.hop_interval_min_secs
    };
    let max: u64 = if config.hop_interval_max_secs == 0 || config.hop_interval_max_secs < min {
        min
    } else {
        config.hop_interval_max_secs
    };
    let hop = HopConfig {
        addrs,
        interval_min: TimeSpan::from_secs(min),
        interval_max: TimeSpan::from_secs(max),
    };
    Ok((canonical, Some(hop)))
}

/// The obfuscator that a configuration asks for, if it does.
pub fn obfuscator(config: &Config) -> (r: Result<Option<Salamander>, Error>)
    ensures
        match r {
            Ok(None) => config.obfs_password@.len() == 0,
            Ok(Some(s)) => {
                &&& config.obfs_password@.len() > 0
                &&& s@ == encode_utf8(config.obfs_password@)
                &&& s@.len() >= obfs::MIN_PSK_LEN
            },
            Err(e) => {
                &&& config.obfs_password@.len() > 0
                &&& encode_utf8(config.obfs_password@).len() < obfs::MIN_PSK_LEN
                &&& e.is_config("obfs password must be at least 4 bytes"@)
            },
        },
{
    if config.obfs_password.as_str().is_empty() {
        return Ok(None);
    }
    match Salamander::new(config.obfs_password.as_str().as_bytes()) {
        Some(s) => Ok(Some(s)),
        None => Err(Error::config("obfs password must be at least 4 bytes")),
    }
}

/// All that is settled about a connection before it is made.
pub struct ConnectPlan {
    /// The name that the server's certificate must be for.
    pub server_name: String,
    /// The address to dial.
    pub canonical: SocketAddress,
    /// How to hop between ports, if there are several.
    pub hop: Option<HopConfig>,
    /// How to obfuscate packets, if they are to be.
    pub obfs: Option<Salamander>,
    /// How the server's certificate is judged.
    pub policy: CertPolicy,
    /// How the upload is controlled at first; `None` = BBR only.
    pub upload: Option<UploadControl>,
}

/// What is wrong with a configuration whose ports are in order, if something is, where the
/// server's host was found to be `found`.
pub open spec fn config_fault(config: Config, found: Option<IpAddress>) -> Option<Seq<char>> {
    if found is None {
        Some("could not resolve server host: "@ + config::host_of(config.server_addr@))
    } else if config.obfs_password@.len() > 0 && encode_utf8(config.obfs_password@).len()
        < obfs::MIN_PSK_LEN {
        Some("obfs password must be at least 4 bytes"@)
    } else {
        tls::pin_fault(config.pin_sha256@)
    }
}

/// Whether `policy` is how a configuration wants certificates judged.
pub open spec fn is_policy(policy: CertPolicy, config: Config) -> bool {
    if config.pin_sha256@.len() == 0 {
        policy == if config.insecure {
            CertPolicy::AcceptAll
        } else {
            CertPolicy::Chain
        }
    } else {
        policy matches CertPolicy::Pinned { pin, chain } && chain == !config.insecure && pin@
            == tls::hex_bytes(tls::pin_digits(config.pin_sha256@))
    }
}

/// Settle all that there is to a connection before it is made, where the candidate ports are
/// `ports` and the server's host was found to be `found`.
pub fn connect_plan(config: &Config, ports: &[u16], found: Option<IpAddress>) -> (r: Result<
    ConnectPlan,
    Error,
>)
    requires
        ports@.len() > 0,
    ensures
        match r {
            Ok(plan) => {
                &&& config_fault(*config, found) is None
                &&& plan.server_name@ == if config.server_name@.len() > 0 {
                    config.server_name@
                } else {
                    config::host_of(config.server_addr@)
                }
                &&& plan.canonical == addr::socket_address(found->0, ports@[0])
                &&& is_hop(plan.hop, *config, found->0, ports@)
                &&& socket::psk_of(plan.obfs) == if config.obfs_password@.len() > 0 {
                    Some(encode_utf8(config.obfs_password@))
                } else {
                    None
                }
                &&& is_policy(plan.policy, *config)
                &&& plan.upload == if config.tx_bps > 0 {
                    Some(UploadControl { rate: config.tx_bps, use_bbr: false })
                } else {
                    None
                }
            },
            Err(e) => config_fault(*config, found) matches Some(text) && e.is_config(text),
        },
{
    let server_name = config.resolved_server_name();
    let (canonical, hop) = match resolved_endpoint(config, ports, found) {
        Ok(p) => p,
        Err(e) => {
            return Err(e);
        },
    };
    let obfs = match obfuscator(config) {
        Ok(o) => o,
        Err(e) => {
            return Err(e);
        },
    };
    let pin = match tls::parse_pin(config.pin_sha256.as_str()) {
        Ok(p) => p,
        Err(e) => {
            return Err(e);
        },
    };
    let policy = tls::cert_policy(config.insecure, pin);
    let upload = UploadControl::configured(config.tx_bps);
    Ok(ConnectPlan { server_name, canonical, hop, obfs, policy, upload })
}

/// The parameters of the QUIC transport.
#[derive(Debug, Clone, Copy, PartialEq, Eq, Structural)]
pub struct TransportPlan {
    pub keep_alive_interval: TimeSpan,
    pub max_idle_timeout: TimeSpan,
    pub initial_rtt: TimeSpan,
    /// Receive window of a stream; fits a varint.
    pub stream_receive_window: u64,
    /// Receive window of the connection; fits a varint.
    pub receive_window: u64,
    pub mtu_discovery: bool,
    /// Room for received datagrams, which turns datagrams on.
    pub datagram_receive_buffer_size: usize,
    pub datagram_send_buffer_size: usize,
}

/// `n`, or the largest number that fits a varint if that is less.
pub open spec fn varint_capped(n: u64) -> u64 {
    if n <= MAX_VARINT {
        n
    } else {
        MAX_VARINT
    }
}

fn capped(n: u64) -> (r: u64)
    ensures
        r == varint_capped(n),
{
    if n <= MAX_VARINT {
        n
    } else {
        MAX_VARINT
    }
}

/// The transport parameters that a configuration asks for. There is room for 1024 of the largest
/// datagrams either way.
pub fn transport_plan(quic: &QuicParams) -> (t: TransportPlan)
    ensures
        t == (TransportPlan {
            keep_alive_interval: quic.keep_alive_interval,
            max_idle_timeout: quic.max_idle_timeout,
            initial_rtt: quic.initial_rtt,
            stream_receive_window: varint_capped(quic.stream_receive_window),
            receive_window: varint_capped(quic.connection_receive_window),
            mtu_discovery: !quic.disable_path_mtu_discovery,
            datagram_receive_buffer_size: 1_228_800,
            datagram_send_buffer_size: 1_228_800,
        }),
{
    let buffer: usize = wire::MAX_DATAGRAM_FRAME_SIZE as usize * 1024;
    TransportPlan {
        keep_alive_interval: quic.keep_alive_interval,
        max_idle_timeout: quic.max_idle_timeout,
        initial_rtt: quic.initial_rtt,
        stream_receive_window: capped(quic.stream_receive_window),
        receive_window: capped(quic.connection_receive_window),
        mtu_discovery: !quic.disable_path_mtu_discovery,
        datagram_receive_buffer_size: buffer,
        datagram_send_buffer_size: buffer,
    }
}

/// The local address to bind: any free port, in the address family of the server.
pub fn bind_address(canonical: &SocketAddress) -> (a: &'static str)
    ensures
        a@ == if canonical is V6 {
            "[::]:0"@
        } else {
            "0.0.0.0:0"@
        },
{
    if canonical.is_ipv6() {
        "[::]:0"
    } else {
        "0.0.0.0:0"
    }
}

/// The hop interval is never empty, and its bounds are never 0.
pub proof fn law_hop_interval(min: u64, max: u64)
    ensures
        0 < hop_interval(min, max).0 <= hop_interval(min, max).1,
        min > 0 ==> hop_interval(min, max).0 == min,
        0 < min <= max ==> hop_interval(min, max).1 == max,
        max == 0 ==> hop_interval(min, max).1 == hop_interval(min, max).0,
{
}

/// The address that is dialed is among those that are hopped between.
pub proof fn law_dialed_address_is_hopped_to(ip: IpAddress, ports: Seq<u16>)
    requires
        ports.len() > 0,
    ensures
        addresses(ip, ports).contains(addr::socket_address(ip, ports[0])),
{
    assert(addresses(ip, ports)[0] == addr::socket_address(ip, ports[0]));
}

/// Explicit hop ports decide alone: as long as there are some, the address of the server makes
/// no difference to the ports. Its port counts only if there are none.
pub proof fn law_hop_ports_come_first(a: Config, b: Config)
    requires
        a.hop_ports@ == b.hop_ports@,
    ensures
        a.hop_ports@.len() > 0 ==> ports_wanted(a) == Some(a.hop_ports@),
        a.hop_ports@.len() > 0 ==> ports_wanted(a) == ports_wanted(b),
        a.hop_ports@.len() == 0 ==> ports_wanted(a) == config::port_of(a.server_addr@),
{
}

/// The port of an address counts if there are no hop ports, whatever the host, and an address
/// without one has none to offer.
pub proof fn law_address_port_counts(c: Config, host: Seq<char>, port: Seq<char>)
    requires
        c.hop_ports@.len() == 0,
        !port.contains(':'),
    ensures
        c.server_addr@ == host + seq![':'] + port ==> ports_wanted(c) == Some(port),
        c.server_addr@ == port ==> ports_wanted(c) is None,
{
    config::law_host_and_port(host, port);
}

/// The hop interval runs from the configured minimum, or 30 seconds if that is 0, to the
/// configured maximum, or the minimum if that is more.
pub proof fn law_hop_interval_bounds(min: u64, max: u64)
    ensures
        ({
            let (low, high) = hop_interval(min, max);
            &&& min == 0 ==> low == 30
            &&& min > 0 ==> low == min
            &&& high >= low
            &&& high >= max
            &&& high == low || high == max
        }),
{
}

/// Every port has its address, in order, all at the same IP address and in no particular scope.
pub proof fn law_addresses(ip: IpAddress, ports: Seq<u16>, i: int)
    requires
        0 <= i < ports.len(),
    ensures
        addresses(ip, ports).len() == ports.len(),
        match ip {
            IpAddress::V4(v4) => addresses(ip, ports)[i] matches SocketAddress::V4 { ip: a, port }
                && a == v4 && port == ports[i],
            IpAddress::V6(v6) => addresses(ip, ports)[i] matches SocketAddress::V6 {
                ip: a,
                port,
                flowinfo,
                scope_id,
            } && a == v6 && port == ports[i] && flowinfo == 0 && scope_id == 0,
        },
        addr::socket_address(ip, ports[i]) == addresses(ip, ports)[i],
{
}

/// There is hopping exactly if there is more than one port, between all of them and at whole
/// seconds within the hop interval.
pub proof fn law_hop(hop: Option<HopConfig>, c: Config, ip: IpAddress, ports: Seq<u16>)
    requires
        is_hop(hop, c, ip, ports),
    ensures
        hop is Some <==> ports.len() > 1,
        hop matches Some(h) ==> {
            let (min, max) = hop_interval(c.hop_interval_min_secs, c.hop_interval_max_secs);
            &&& h.addrs@ == addresses(ip, ports)
            &&& h.interval_min.secs == min && h.interval_min.nanos == 0
            &&& h.interval_max.secs == max && h.interval_max.nanos == 0
        },
{
}

/// What is wrong with a configuration is said in this order: a host that is not found, an
/// obfuscation password that is too short, a pin that cannot be read.
pub proof fn law_config_fault(c: Config, found: Option<IpAddress>)
    ensures
        ({
            let fault = config_fault(c, found);
            let short = c.obfs_password@.len() > 0 && encode_utf8(c.obfs_password@).len() < 4;
            &&& found is None ==> fault == Some(
                "could not resolve server host: "@ + config::host_of(c.server_addr@),
            )
            &&& found is Some && short ==> fault == Some("obfs password must be at least 4 bytes"@)
            &&& found is Some && !short ==> fault == tls::pin_fault(c.pin_sha256@)
        }),
{
}

/// A pin is always checked, and the chain is checked exactly if that is not switched off.
pub proof fn law_policy(policy: CertPolicy, c: Config)
    requires
        is_policy(policy, c),
    ensures
        policy is Pinned <==> c.pin_sha256@.len() > 0,
        policy is AcceptAll <==> c.pin_sha256@.len() == 0 && c.insecure,
        policy is Chain <==> c.pin_sha256@.len() == 0 && !c.insecure,
        policy matches CertPolicy::Pinned { pin, chain } ==> chain == !c.insecure && pin@
            == tls::hex_bytes(tls::pin_digits(c.pin_sha256@)),
{
}

/// A number is capped at the largest that has a varint.
pub proof fn law_varint_capped(n: u64)
    ensures
        varint_capped(n) < 0x4000_0000_0000_0000,
        n < 0x4000_0000_0000_0000 ==> varint_capped(n) == n,
        n >= 0x4000_0000_0000_0000 ==> varint_capped(n) + 1 == 0x4000_0000_0000_0000,
{
}

} // verus!
