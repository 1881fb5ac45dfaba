//! The auth handshake: `POST https://hysteria/auth` over HTTP/3.

use http::{HeaderMap, HeaderValue};
use vstd::prelude::*;
use vstd::utf8::*;

use crate::config::Config;
use crate::error::Error;
use crate::padding;
use crate::text;

verus! {

/// Auth success HTTP status (intentionally non-standard).
pub const STATUS_AUTH_OK: u16 = 233;

/// The auth request, ready to be sent.
pub struct AuthRequest {
    pub method: String,
    pub uri: String,
    /// Header names and values, in order.
    pub headers: Vec<(String, String)>,
}

/// Header names and values as text.
pub open spec fn header_texts(headers: Seq<(String, String)>) -> Seq<(Seq<char>, Seq<char>)> {
    headers.map_values(|h: (String, String)| (h.0@, h.1@))
}

/// The headers of the auth request of a client that authenticates with `auth`, can receive
/// `rx_bps` bytes per second and pads with `padding`.
pub open spec fn auth_headers(auth: Seq<char>, rx_bps: u64, padding: Seq<char>) -> Seq<
    (Seq<char>, Seq<char>),
> {
    seq![
        ("Host"@, "hysteria"@),
        ("Hysteria-Auth"@, auth),
        ("Hysteria-CC-RX"@, text::decimal_digits(rx_bps as nat)),
        ("Hysteria-Padding"@, padding),
    ]
}

#[verifier::external_type_specification]
#[verifier::external_body]
pub struct ExHeaderValue(http::HeaderValue);

#[verifier::external_type_specification]
#[verifier::external_body]
#[verifier::reject_recursive_types(T)]
pub struct ExHeaderMap<T>(http::HeaderMap<T>);

/// Whether `value` can be the value of a header: a tab is the only control character in it.
pub open spec fn is_header_value(value: Seq<u8>) -> bool {
    forall|i: int| 0 <= i < value.len() ==> (#[trigger] value[i] >= 32 && value[i] != 127) || value[i] == 9
}

/// `http::HeaderValue::from_str` takes exactly the texts that can be header values. The error,
/// where there is one, is given as its text.
#[verifier::external_body]
fn header_value_error(text: &str) -> (e: Option<String>)
    ensures
        e is None <==> is_header_value(encode_utf8(text@)),
        e matches Some(why) ==> why@ == "failed to parse header value"@,
{
    HeaderValue::from_str(text).err().map(|e| e.to_string())
}

/// The auth request with the padding `padding`. The authentication string must be fit for a
/// header.
pub fn auth_request_with(config: &Config, padding: String) -> (r: Result<AuthRequest, Error>)
    ensures
        match r {
            Ok(q) => {
                &&& is_header_value(encode_utf8(config.auth@))
                &&& q.method@ == "POST"@
                &&& q.uri@ == "https://hysteria/auth"@
                &&& header_texts(q.headers@) == auth_headers(config.auth@, config.rx_bps, padding@)
            },
            Err(e) => {
                &&& !is_header_value(encode_utf8(config.auth@))
                &&& e.is_protocol("build auth request: "@ + "failed to parse header value"@)
            },
        },
{
    match header_value_error(config.auth.as_str()) {
        Some(why) => {
            return Err(Error::protocol_with("build auth request: ", why.as_str()));
        },
        None => {},
    }
    let mut headers: Vec<(String, String)> = Vec::new();
    let ghost pad = padding@;
    headers.push(("Host".to_owned(), "hysteria".to_owned()));
    headers.push(("Hysteria-Auth".to_owned(), config.auth.clone()));
    headers.push(("Hysteria-CC-RX".to_owned(), text::decimal_string(config.rx_bps)));
    headers.push(("Hysteria-Padding".to_owned(), padding));
    assert(header_texts(headers@) =~= auth_headers(config.auth@, config.rx_bps, pad));
    Ok(
        AuthRequest {
            method: "POST".to_owned(),
            uri: "https://hysteria/auth".to_owned(),
            headers,
        },
    )
}

/// The auth request, with random padding.
pub fn auth_request(config: &Config) -> (r: Result<AuthRequest, Error>)
    ensures
        match r {
            Ok(q) => {
                let padding = q.headers@[3].1@;
                &&& is_header_value(encode_utf8(config.auth@))
                &&& q.method@ == "POST"@
                &&& q.uri@ == "https://hysteria/auth"@
                &&& header_texts(q.headers@) == auth_headers(config.auth@, config.rx_bps, padding)
                &&& padding::is_padding(encode_utf8(padding), 256, 2048)
            },
            Err(e) => {
                &&& !is_header_value(encode_utf8(config.auth@))
                &&& e.is_protocol("build auth request: "@ + "failed to parse header value"@)
            },
        },
{
    let padding = padding::auth_request_padding();
    let ghost pad = padding@;
    let r = auth_request_with(config, padding);
    assert(r matches Ok(q) ==> header_texts(q.headers@)[3].1 == pad);
    r
}

/// Outcome of the auth handshake.
#[derive(Debug, Clone, Copy, PartialEq, Eq, Structural)]
pub struct AuthResponse {
    pub udp_enabled: bool,
    /// Server's advertised receive rate (bytes/sec); 0 = unlimited.
    pub server_rx: u64,
    /// Server asked the client to use its own bandwidth detection.
    pub rx_auto: bool,
}

/// The header value `true`.
pub open spec fn text_true() -> Seq<u8> {
    seq![0x74, 0x72, 0x75, 0x65]
}

/// The header value `auto`.
pub open spec fn text_auto() -> Seq<u8> {
    seq![0x61, 0x75, 0x74, 0x6f]
}

/// The rate that a `Hysteria-CC-RX` value states: a decimal number of bytes per second, or 0 if
/// it states none.
pub open spec fn stated_rate(value: Seq<u8>) -> nat {
    match text::decimal_within(text::ascii_text(value), u64::MAX as nat) {
        Some(n) => n,
        None => 0,
    }
}

/// What the server says with the values of `Hysteria-UDP` and `Hysteria-CC-RX`.
pub open spec fn auth_outcome(udp: Option<Seq<u8>>, cc_rx: Option<Seq<u8>>) -> AuthResponse {
    let auto = cc_rx == Some(text_auto());
    AuthResponse {
        udp_enabled: udp == Some(text_true()),
        server_rx: match cc_rx {
            Some(value) => if auto {
                0
            } else {
                stated_rate(value) as u64
            },
            None => 0,
        },
        rx_auto: auto,
    }
}

/// The bytes of a header value, if the header is there.
pub open spec fn value_of(header: Option<&[u8]>) -> Option<Seq<u8>> {
    match header {
        Some(v) => Some(v@),
        None => None,
    }
}

/// Judge the server's answer by its status and by the raw values of its `Hysteria-UDP` and
/// `Hysteria-CC-RX` headers. `Hysteria-CC-RX` is either "auto" or a byte/sec integer.
pub fn auth_response(status: u16, udp: Option<&[u8]>, cc_rx: Option<&[u8]>) -> (r: Result<
    AuthResponse,
    Error,
>)
    ensures
        match r {
            Ok(a) => {
                &&& status == STATUS_AUTH_OK
                &&& a == auth_outcome(value_of(udp), value_of(cc_rx))
                &&& a.udp_enabled == (udp matches Some(v) && v@ == seq![0x74u8, 0x72, 0x75, 0x65])
            },
            Err(e) => status != STATUS_AUTH_OK && e == Error::AuthFailed(status),
        },
{
    if status != STATUS_AUTH_OK {
        return Err(Error::AuthFailed(status));
    }
    let udp_enabled: bool = match udp {
        Some(v) => {
            let b: bool = v.len() == 4 && v[0] == 0x74 && v[1] == 0x72 && v[2] == 0x75 && v[3]
                == 0x65;
            assert(b ==> v@ =~= text_true());
            b
        },
        None => false,
    };
    let (server_rx, rx_auto): (u64, bool) = match cc_rx {
        Some(v) => {
            if v.len() == 4 && v[0] == 0x61 && v[1] == 0x75 && v[2] == 0x74 && v[3] == 0x6f {
                assert(v@ =~= text_auto());
                (0, true)
            } else {
                let chars = text::ascii_chars(v);
                match text::parse_decimal(chars.as_slice(), u64::MAX) {
                    Some(n) => (n, false),
                    None => (0, false),
                }
            }
        },
        None => (0, false),
    };
    Ok(AuthResponse { udp_enabled, server_rx, rx_auto })
}

/// What `http::HeaderMap` holds: for each header by its name in lower case, the bytes of its
/// first value.
pub uninterp spec fn first_values(headers: HeaderMap) -> Map<Seq<char>, Seq<u8>>;

/// `c`, in lower case if it is an ASCII letter.
pub open spec fn ascii_lower(c: char) -> char {
    if 'A' <= c <= 'Z' {
        (c as u32 + 32) as char
    } else {
        c
    }
}

/// The first value of the header `name`, whatever the case of its letters.
pub open spec fn header(headers: Map<Seq<char>, Seq<u8>>, name: Seq<char>) -> Option<Seq<u8>> {
    let key = name.map_values(|c: char| ascii_lower(c));
    if headers.contains_key(key) {
        Some(headers[key])
    } else {
        None
    }
}

/// `http::HeaderMap::get` finds a header by its name, in whatever case it is written, and gives
/// its first value, here as bytes.
#[verifier::external_body]
fn first_value<'a>(headers: &'a HeaderMap, name: &str) -> (value: Option<&'a [u8]>)
    ensures
        value_of(value) == header(first_values(*headers), name@),
{
    headers.get(name).map(|v| v.as_bytes())
}

/// Judge the server's answer by its status and its headers.
pub fn read_auth_response(status: u16, headers: &HeaderMap) -> (r: Result<AuthResponse, Error>)
    ensures
        match r {
            Ok(a) => status == STATUS_AUTH_OK && a == auth_outcome(
                header(first_values(*headers), "Hysteria-UDP"@),
                header(first_values(*headers), "Hysteria-CC-RX"@),
            ),
            Err(e) => status != STATUS_AUTH_OK && e == Error::AuthFailed(status),
        },
{
    let udp = first_value(headers, "Hysteria-UDP");
    let cc_rx = first_value(headers, "Hysteria-CC-RX");
    auth_response(status, udp, cc_rx)
}

/// A rate as a server states it, in decimal.
pub open spec fn rate_text(rate: u64) -> Seq<u8> {
    let digits = text::decimal_digits(rate as nat);
    Seq::new(digits.len(), |i: int| digits[i] as u8)
}

/// The rate that a server states in decimal is the rate that the client reads.
pub proof fn law_stated_rate_is_read(udp: Option<Seq<u8>>, rate: u64)
    ensures
        auth_outcome(udp, Some(rate_text(rate))).server_rx == rate,
        !auth_outcome(udp, Some(rate_text(rate))).rx_auto,
{
    let digits = text::decimal_digits(rate as nat);
    let value = rate_text(rate);
    text::law_decimal_round_trip(rate as nat);
    text::lemma_decimal_digits(rate as nat);
    assert(text::ascii_text(value) =~= digits);
    assert(text::is_digit(digits[0]));
    assert(value[0] != text_auto()[0]);
}

/// UDP is relayed exactly if the server says `true`, whatever it says about its rate; the rate is
/// left to detection exactly if it says `auto`, whatever it says about UDP; and apart from that
/// it is the number that the server states, or 0 if it states none.
pub proof fn law_auth_outcome(udp: Option<Seq<u8>>, cc_rx: Option<Seq<u8>>)
    ensures
        ({
            let a = auth_outcome(udp, cc_rx);
            &&& a.udp_enabled <==> udp == Some(seq![0x74u8, 0x72, 0x75, 0x65])
            &&& a.rx_auto <==> cc_rx == Some(seq![0x61u8, 0x75, 0x74, 0x6f])
            &&& a.rx_auto || cc_rx is None ==> a.server_rx == 0
            &&& !a.rx_auto && cc_rx is Some ==> match text::decimal(
                Seq::new(cc_rx->0.len(), |i: int| cc_rx->0[i] as char),
            ) {
                Some(n) => if n <= u64::MAX {
                    a.server_rx == n
                } else {
                    a.server_rx == 0
                },
                None => a.server_rx == 0,
            }
        }),
{
    if let Some(v) = cc_rx {
        assert(text::ascii_text(v) =~= Seq::new(v.len(), |i: int| v[i] as char));
    }
}

/// What the server says of UDP and what it says of its rate have nothing to do with one another.
pub proof fn law_answers_are_independent(
    udp: Option<Seq<u8>>,
    other_udp: Option<Seq<u8>>,
    cc_rx: Option<Seq<u8>>,
    other_cc_rx: Option<Seq<u8>>,
)
    ensures
        auth_outcome(udp, cc_rx).udp_enabled == auth_outcome(udp, other_cc_rx).udp_enabled,
        auth_outcome(udp, cc_rx).server_rx == auth_outcome(other_udp, cc_rx).server_rx,
        auth_outcome(udp, cc_rx).rx_auto == auth_outcome(other_udp, cc_rx).rx_auto,
{
}

/// The status that means success.
pub proof fn law_success_status(status: u16)
    ensures
        status == STATUS_AUTH_OK <==> status == 233,
{
}

/// A header that is there has its bytes for a value, and one that is not has none.
pub proof fn law_value_of(bytes: &[u8])
    ensures
        value_of(Some(bytes)) == Some(bytes@),
        value_of(None) is None,
{
}

/// The headers of the request, in order.
pub proof fn law_auth_headers(auth: Seq<char>, rx_bps: u64, padding: Seq<char>)
    ensures
        ({
            let h = auth_headers(auth, rx_bps, padding);
            &&& h.len() == 4
            &&& h[0].0 == "Host"@ && h[0].1 == "hysteria"@
            &&& h[1].0 == "Hysteria-Auth"@ && h[1].1 == auth
            &&& h[2].0 == "Hysteria-CC-RX"@ && h[2].1 == text::decimal_digits(rx_bps as nat)
            &&& h[3].0 == "Hysteria-Padding"@ && h[3].1 == padding
        }),
{
}

/// Headers read as text are the names and the values that they hold, in the same order.
pub proof fn law_header_texts(headers: Seq<(String, String)>, i: int)
    requires
        0 <= i < headers.len(),
    ensures
        header_texts(headers).len() == headers.len(),
        header_texts(headers)[i].0 == headers[i].0@,
        header_texts(headers)[i].1 == headers[i].1@,
{
}

/// A header value is one byte by byte: any byte from the space on but DEL, and the tab.
pub proof fn law_header_value(s: Seq<u8>, b: u8)
    ensures
        is_header_value(Seq::empty()),
        is_header_value(s.push(b)) <==> is_header_value(s) && (b == 9 || (b >= 0x20 && b != 0x7f)),
{
    let t = s.push(b);
    assert(t[s.len() as int] == b);
    if is_header_value(t) {
        assert forall|i: int| 0 <= i < s.len() implies (#[trigger] s[i] >= 32 && s[i] != 127) || s[i]
            == 9 by {
            assert(t[i] == s[i]);
        }
        assert((t[s.len() as int] >= 32 && t[s.len() as int] != 127) || t[s.len() as int] == 9);
    }
}

/// A header is looked up by its name in lower case, so that the case in which the name is written
/// makes no difference.
pub proof fn law_header_lookup(headers: Map<Seq<char>, Seq<u8>>, name: Seq<char>, key: Seq<char>)
    requires
        name.len() == key.len(),
        forall|i: int| #![trigger key[i]]
            0 <= i < key.len() ==> key[i] == if 'A' <= name[i] <= 'Z' {
                (name[i] as u32 + 0x20) as char
            } else {
                name[i]
            },
    ensures
        headers.contains_key(key) ==> header(headers, name) == Some(headers[key]),
        !headers.contains_key(key) ==> header(headers, name) is None,
{
    assert(name.map_values(|c: char| ascii_lower(c)) =~= key);
}

} // verus!
