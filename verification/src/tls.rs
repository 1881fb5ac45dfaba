//! Which server certificates are trusted.

use rustls::RootCertStore;
use rustls_pki_types::CertificateDer;
use sha2::{Digest, Sha256};
use vstd::prelude::*;
use vstd::utf8::*;

use crate::error::Error;
use crate::text;

verus! {

/// The characters of a pin that count: all but white space and `:`.
pub open spec fn pin_digits(s: Seq<char>) -> Seq<char>
    decreases s.len(),
{
    if s.len() == 0 {
        s
    } else {
        let before = pin_digits(s.drop_last());
        if text::is_white_space(s.last()) || s.last() == ':' {
            before
        } else {
            before.push(s.last())
        }
    }
}

/// The value of a hexadecimal digit, in either case.
pub open spec fn hex_digit(c: char) -> Option<nat> {
    if '0' <= c <= '9' {
        Some((c as u32 - '0' as u32) as nat)
    } else if 'a' <= c <= 'f' {
        Some((c as u32 - 'a' as u32 + 10) as nat)
    } else if 'A' <= c <= 'F' {
        Some((c as u32 - 'A' as u32 + 10) as nat)
    } else {
        None
    }
}

/// The byte that two characters spell in hexadecimal.
pub open spec fn hex_pair(a: char, b: char) -> Option<nat> {
    match (hex_digit(a), hex_digit(b)) {
        (Some(x), Some(y)) => Some(x * 16 + y),
        _ => None,
    }
}

/// Whether `digits` spells 32 bytes in hexadecimal.
pub open spec fn is_hex(digits: Seq<char>) -> bool {
    &&& digits.len() == 64
    &&& forall|i: int| 0 <= i < 32 ==> hex_pair(#[trigger] digits[2 * i], digits[2 * i + 1]) is Some
}

/// The 32 bytes that `digits` spells.
pub open spec fn hex_bytes(digits: Seq<char>) -> Seq<u8> {
    Seq::new(32, |i: int| hex_pair(digits[2 * i], digits[2 * i + 1])->0 as u8)
}

/// What is wrong with a pin, if something is: the separators aside, it must take 64 bytes, and
/// they must be hexadecimal. An empty one is no pin at all.
pub open spec fn pin_fault(s: Seq<char>) -> Option<Seq<char>> {
    if s.len() == 0 || is_hex(pin_digits(s)) {
        None
    } else if encode_utf8(pin_digits(s)).len() != 64 {
        Some("pin_sha256 must be 32 bytes (64 hex chars)"@)
    } else {
        Some("pin_sha256 is not valid hex"@)
    }
}

/// The lower-case hexadecimal digit with the value `n`.
pub open spec fn hex_char(n: int) -> char {
    if n < 10 {
        ('0' as u32 + n) as char
    } else {
        ('a' as u32 + n - 10) as char
    }
}

/// Some bytes in hexadecimal.
pub open spec fn hex_text(bytes: Seq<u8>) -> Seq<char> {
    Seq::new(
        bytes.len() * 2,
        |i: int|
            if i % 2 == 0 {
                hex_char(bytes[i / 2] as int / 16)
            } else {
                hex_char(bytes[i / 2] as int % 16)
            },
    )
}

proof fn lemma_pin_digits_concat(a: Seq<char>, b: Seq<char>)
    ensures
        pin_digits(a + b) == pin_digits(a) + pin_digits(b),
    decreases b.len(),
{
    if b.len() == 0 {
        assert(a + b =~= a);
        assert(pin_digits(a) + pin_digits(b) =~= pin_digits(a));
    } else {
        lemma_pin_digits_concat(a, b.drop_last());
        assert((a + b).drop_last() =~= a + b.drop_last());
        assert(pin_digits(a + b) =~= pin_digits(a) + pin_digits(b));
    }
}

/// Separators make no difference: a pin with a `:` or with white space anywhere reads the same
/// as without.
pub proof fn law_pin_separators_ignored(a: Seq<char>, c: char, b: Seq<char>)
    requires
        c == ':' || text::is_white_space(c),
    ensures
        pin_digits(a + seq![c] + b) == pin_digits(a + b),
{
    lemma_pin_digits_concat(a + seq![c], b);
    lemma_pin_digits_concat(a, seq![c]);
    lemma_pin_digits_concat(a, b);
    assert(seq![c].drop_last() =~= Seq::empty());
    assert(pin_digits(seq![c].drop_last()) =~= Seq::empty());
    assert(pin_digits(seq![c]) =~= Seq::empty());
    assert(pin_digits(a) + Seq::<char>::empty() =~= pin_digits(a));
}

proof fn lemma_pin_digits_all(s: Seq<char>)
    requires
        forall|i: int| 0 <= i < s.len() ==> hex_digit(#[trigger] s[i]) is Some,
    ensures
        pin_digits(s) == s,
    decreases s.len(),
{
    if s.len() > 0 {
        assert forall|i: int| 0 <= i < s.len() - 1 implies hex_digit(
            #[trigger] s.drop_last()[i],
        ) is Some by {
            assert(s.drop_last()[i] == s[i]);
        }
        lemma_pin_digits_all(s.drop_last());
        assert(hex_digit(s[s.len() - 1]) is Some);
        assert(pin_digits(s) =~= s);
    }
}

/// A digest that is written down in hexadecimal is the digest that is read.
pub proof fn law_pin_is_read(pin: Seq<u8>)
    requires
        pin.len() == 32,
    ensures
        pin_fault(hex_text(pin)) is None,
        hex_text(pin).len() == 64,
        is_hex(pin_digits(hex_text(pin))),
        hex_bytes(pin_digits(hex_text(pin))) == pin,
{
    let s = hex_text(pin);
    assert forall|i: int| 0 <= i < s.len() implies hex_digit(#[trigger] s[i]) is Some by {}
    lemma_pin_digits_all(s);
    assert forall|i: int| 0 <= i < 32 implies hex_pair(#[trigger] s[2 * i], s[2 * i + 1]) == Some(
        pin[i] as nat,
    ) by {
        let b = pin[i] as int;
        assert((2 * i) / 2 == i && (2 * i + 1) / 2 == i && (2 * i) % 2 == 0 && (2 * i + 1) % 2
            == 1);
        assert(hex_digit(hex_char(b / 16)) == Some((b / 16) as nat));
        assert(hex_digit(hex_char(b % 16)) == Some((b % 16) as nat));
    }
    assert(hex_bytes(s) =~= pin);
}

/// How many bytes `c` takes in UTF-8.
fn utf8_width(c: char) -> (n: usize)
    ensures
        n == encode_scalar(c as u32).len(),
        1 <= n <= 4,
{
    proof {
        char_is_scalar(c);
    }
    let u: u32 = c as u32;
    if u < 0x80 {
        1
    } else if u < 0x800 {
        2
    } else if u < 0x1_0000 {
        3
    } else {
        4
    }
}

proof fn lemma_encode_utf8_push(s: Seq<char>, c: char)
    ensures
        encode_utf8(s.push(c)) == encode_utf8(s) + encode_scalar(c as u32),
    decreases s.len(),
{
    let t = s.push(c);
    if s.len() == 0 {
        assert(t.drop_first() =~= Seq::empty());
        assert(encode_utf8(t.drop_first()) =~= Seq::empty());
        assert(encode_utf8(t) =~= encode_utf8(s) + encode_scalar(c as u32));
    } else {
        lemma_encode_utf8_push(s.drop_first(), c);
        assert(t.drop_first() =~= s.drop_first().push(c));
        assert(encode_utf8(t) =~= encode_utf8(s) + encode_scalar(c as u32));
    }
}

fn hex_value(c: char) -> (r: Option<u8>)
    ensures
        match r {
            Some(x) => hex_digit(c) == Some(x as nat) && x < 16,
            None => hex_digit(c) is None,
        },
{
    if '0' <= c && c <= '9' {
        Some((c as u32 - '0' as u32) as u8)
    } else if 'a' <= c && c <= 'f' {
        Some((c as u32 - 'a' as u32 + 10) as u8)
    } else if 'A' <= c && c <= 'F' {
        Some((c as u32 - 'A' as u32 + 10) as u8)
    } else {
        None
    }
}

fn hex_byte(a: char, b: char) -> (r: Option<u8>)
    ensures
        match r {
            Some(x) => hex_pair(a, b) == Some(x as nat),
            None => hex_pair(a, b) is None,
        },
{
    match (hex_value(a), hex_value(b)) {
        (Some(x), Some(y)) => Some(x * 16 + y),
        _ => None,
    }
}

/// Parse a `pin_sha256` string (hex with optional `:` separators / whitespace)
/// into 32 bytes. Returns `Ok(None)` for an empty string. The separators aside, the
/// string must take 64 bytes.
pub fn parse_pin(s: &str) -> (r: Result<Option<[u8; 32]>, Error>)
    ensures
        match r {
            Ok(None) => s@.len() == 0,
            Ok(Some(pin)) => {
                &&& s@.len() > 0
                &&& is_hex(pin_digits(s@))
                &&& pin@ == hex_bytes(pin_digits(s@))
            },
            Err(e) => pin_fault(s@) matches Some(text) && e.is_config(text),
        },
{
    if s.is_empty() {
        return Ok(None);
    }
    let chars = text::chars_of(s);
    let mut hex: Vec<char> = Vec::new();
    let mut width: usize = 0;
    let mut i: usize = 0;
    while i < chars.len()
        invariant
            i <= chars@.len(),
            chars@ == s@,
            hex@ == pin_digits(s@.take(i as int)),
            width <= 64 ==> width == encode_utf8(hex@).len(),
            width > 64 ==> encode_utf8(hex@).len() > 64,
            width <= 68,
        decreases chars@.len() - i,
    {
        let c: char = chars[i];
        let ghost before = hex@;
        assert(s@.take(i + 1).drop_last() =~= s@.take(i as int));
        if !text::white_space(c) && c != ':' {
            hex.push(c);
            let w: usize = utf8_width(c);
            proof {
                lemma_encode_utf8_push(before, c);
            }
            if width <= 64 {
                width += w;
            }
        }
        i += 1;
    }
    assert(s@.take(i as int) =~= s@);
    let ghost digits = pin_digits(s@);
    proof {
        lemma_hex_is_ascii(digits);
    }
    if width != 64 {
        return Err(Error::config("pin_sha256 must be 32 bytes (64 hex chars)"));
    }
    if hex.len() != 64 {
        return Err(Error::config("pin_sha256 is not valid hex"));
    }
    let mut out: [u8; 32] = [0u8; 32];
    let mut i: usize = 0;
    while i < 32
        invariant
            i <= 32,
            hex@ == digits,
            digits == pin_digits(s@),
            s@.len() > 0,
            encode_utf8(digits).len() == 64,
            digits.len() == 64,
            forall|j: int|
                0 <= j < i ==> hex_pair(#[trigger] digits[2 * j], digits[2 * j + 1]) is Some,
            forall|j: int|
                0 <= j < i ==> #[trigger] out@[j] == hex_pair(digits[2 * j], digits[2 * j + 1])->0 as u8,
        decreases 32 - i,
    {
        match hex_byte(hex[2 * i], hex[2 * i + 1]) {
            Some(b) => {
                out[i] = b;
            },
            None => {
                return Err(Error::config("pin_sha256 is not valid hex"));
            },
        }
        i += 1;
    }
    assert(out@ =~= hex_bytes(digits));
    Ok(Some(out))
}

/// Hexadecimal text takes one byte per character.
proof fn lemma_hex_is_ascii(digits: Seq<char>)
    ensures
        is_hex(digits) ==> encode_utf8(digits).len() == 64,
{
    if is_hex(digits) {
        assert forall|k: int| 0 <= k < digits.len() implies '\0' <= #[trigger] digits[k] <= '\u{7f}' by {
            let j = k / 2;
            assert(hex_pair(digits[2 * j], digits[2 * j + 1]) is Some);
            assert(k == 2 * j || k == 2 * j + 1);
        }
        assert(is_ascii_chars(digits));
        is_ascii_chars_encode_utf8(digits);
    }
}

/// The SHA-256 digest of `data`.
pub uninterp spec fn sha256(data: Seq<u8>) -> Seq<u8>;

/// `sha2::Sha256::digest` gives the SHA-256 digest of `data`.
#[verifier::external_body]
fn sha256_of(data: &[u8]) -> (digest: [u8; 32])
    ensures
        digest@ == sha256(data@),
{
    Sha256::digest(data).into()
}

/// The protocol to negotiate: Hysteria2 masquerades as HTTP/3.
pub const ALPN_H3: &'static str = "h3";

/// How the server's certificate is judged.
#[derive(Debug, Clone, Copy)]
pub enum CertPolicy {
    /// By its chain, against the trusted roots.
    Chain,
    /// Not at all.
    AcceptAll,
    /// By the SHA-256 digest of the certificate, and if `chain` is set by its chain too.
    Pinned { pin: [u8; 32], chain: bool },
}

/// What is to be done about a certificate.
#[derive(Debug, Clone, Copy, PartialEq, Eq, Structural)]
pub enum CertVerdict {
    Accept,
    Reject,
    /// Go by the verdict on the chain.
    AskChain,
}

/// The policy that a configuration asks for.
pub fn cert_policy(insecure: bool, pin_sha256: Option<[u8; 32]>) -> (p: CertPolicy)
    ensures
        p == match pin_sha256 {
            None => if insecure {
                CertPolicy::AcceptAll
            } else {
                CertPolicy::Chain
            },
            Some(pin) => CertPolicy::Pinned { pin, chain: !insecure },
        },
{
    match pin_sha256 {
        None => {
            if insecure {
                CertPolicy::AcceptAll
            } else {
                CertPolicy::Chain
            }
        },
        Some(pin) => CertPolicy::Pinned { pin, chain: !insecure },
    }
}

fn same_bytes(a: &[u8; 32], b: &[u8; 32]) -> (r: bool)
    ensures
        r == (a@ == b@),
{
    let mut i: usize = 0;
    while i < 32
        invariant
            i <= 32,
            forall|j: int| 0 <= j < i ==> a@[j] == b@[j],
        decreases 32 - i,
    {
        if a[i] != b[i] {
            return false;
        }
        i += 1;
    }
    assert(a@ =~= b@);
    true
}

/// The verdict on a certificate with the digest `digest`.
pub open spec fn verdict(policy: CertPolicy, digest: Seq<u8>) -> CertVerdict {
    match policy {
        CertPolicy::Chain => CertVerdict::AskChain,
        CertPolicy::AcceptAll => CertVerdict::Accept,
        CertPolicy::Pinned { pin, chain } => if digest != pin@ {
            CertVerdict::Reject
        } else if chain {
            CertVerdict::AskChain
        } else {
            CertVerdict::Accept
        },
    }
}

/// Judge a certificate by its SHA-256 digest.
pub fn judge_digest(policy: &CertPolicy, digest: &[u8; 32]) -> (v: CertVerdict)
    ensures
        v == verdict(*policy, digest@),
{
    match policy {
        CertPolicy::Chain => CertVerdict::AskChain,
        CertPolicy::AcceptAll => CertVerdict::Accept,
        CertPolicy::Pinned { pin, chain } => {
            if !same_bytes(digest, pin) {
                CertVerdict::Reject
            } else if *chain {
                CertVerdict::AskChain
            } else {
                CertVerdict::Accept
            }
        },
    }
}

/// Judge the server's leaf certificate.
pub fn judge_certificate(policy: &CertPolicy, certificate: &[u8]) -> (v: CertVerdict)
    ensures
        v == verdict(*policy, sha256(certificate@)),
{
    let digest = sha256_of(certificate);
    judge_digest(policy, &digest)
}

/// Whether handshake signatures are checked by whoever checks the chain.
pub fn signatures_follow_chain(policy: &CertPolicy) -> (b: bool)
    ensures
        b == match *policy {
            CertPolicy::Chain => true,
            CertPolicy::AcceptAll => false,
            CertPolicy::Pinned { chain, .. } => chain,
        },
{
    match policy {
        CertPolicy::Chain => true,
        CertPolicy::AcceptAll => false,
        CertPolicy::Pinned { chain, .. } => *chain,
    }
}

/// With a pin, no certificate with another digest passes, and without `insecure` the chain is
/// checked as well.
pub proof fn law_pin_is_binding(pin: [u8; 32], chain: bool, digest: Seq<u8>)
    ensures
        verdict(CertPolicy::Pinned { pin, chain }, digest) is Reject <==> digest != pin@,
        chain ==> !(verdict(CertPolicy::Pinned { pin, chain }, digest) is Accept),
{
}

/// What `rustls_pemfile` reads in a PEM text, item by item: the DER bytes of a certificate, or
/// the text of an error.
pub uninterp spec fn pem_certs(pem: Seq<u8>) -> Seq<Result<Seq<u8>, Seq<char>>>;

pub open spec fn item_text(item: Result<Vec<u8>, String>) -> Result<Seq<u8>, Seq<char>> {
    match item {
        Ok(der) => Ok(der@),
        Err(e) => Err(e@),
    }
}

/// `rustls_pemfile::certs` over the bytes `pem`. What it reads depends on them alone.
#[verifier::external_body]
fn read_pem_certs(pem: &[u8]) -> (items: Vec<Result<Vec<u8>, String>>)
    ensures
        items@.map_values(|item| item_text(item)) == pem_certs(pem@),
{
    let mut rd = pem;
    rustls_pemfile::certs(&mut rd)
        .map(|c| match c {
            Ok(der) => Ok(der.to_vec()),
            Err(e) => Err(e.to_string()),
        })
        .collect()
}

#[verifier::external_type_specification]
#[verifier::external_body]
pub struct ExRootCertStore(rustls::RootCertStore);

/// What `rustls::RootCertStore` holds: of each root its subject, its public key and its name
/// constraints, in DER.
pub uninterp spec fn roots_in(store: RootCertStore) -> Seq<(Seq<u8>, Seq<u8>, Option<Seq<u8>>)>;

/// What `rustls` takes of a root certificate: its subject, its public key and its name
/// constraints, in DER. If it does not take the certificate, the text of the error.
pub uninterp spec fn root_in(der: Seq<u8>) -> Result<
    (Seq<u8>, Seq<u8>, Option<Seq<u8>>),
    Seq<char>,
>;

/// `rustls::RootCertStore::add` adds what it takes of the certificate `der` behind the roots that
/// are there, or fails and adds nothing. The error is given as its text.
#[verifier::external_body]
fn add_root(roots: &mut RootCertStore, der: &[u8]) -> (r: Result<(), String>)
    ensures
        match root_in(der@) {
            Ok(root) => r is Ok && roots_in(*final(roots)) == roots_in(*old(roots)).push(root),
            Err(text) => {
                &&& r matches Err(e) && e@ == text
                &&& roots_in(*final(roots)) == roots_in(*old(roots))
            },
        },
{
    roots.add(CertificateDer::from(der)).map_err(|e| e.to_string())
}

/// `rustls::RootCertStore::empty` gives a store without roots.
pub assume_specification[ rustls::RootCertStore::empty ]() -> (store: RootCertStore)
    ensures
        roots_in(store) == Seq::<(Seq<u8>, Seq<u8>, Option<Seq<u8>>)>::empty(),
;

/// What a store holds that held `roots` before it was extended by
/// `webpki_roots::TLS_SERVER_ROOTS`.
pub uninterp spec fn and_system_roots(roots: Seq<(Seq<u8>, Seq<u8>, Option<Seq<u8>>)>) -> Seq<
    (Seq<u8>, Seq<u8>, Option<Seq<u8>>),
>;

/// `rustls::RootCertStore::extend` by `webpki_roots::TLS_SERVER_ROOTS`, a constant list that is
/// not empty. What comes of it depends on what the store held alone.
#[verifier::external_body]
fn add_system_roots(roots: &mut RootCertStore)
    ensures
        roots_in(*final(roots)) == and_system_roots(roots_in(*old(roots))),
        roots_in(*final(roots)).len() > roots_in(*old(roots)).len(),
{
    roots.extend(webpki_roots::TLS_SERVER_ROOTS.iter().cloned());
}

/// The roots that are taken of what was read in a PEM text, in order, or the error that the
/// first item gives which cannot be read or is not taken.
pub open spec fn roots_of(items: Seq<Result<Seq<u8>, Seq<char>>>) -> Result<
    Seq<(Seq<u8>, Seq<u8>, Option<Seq<u8>>)>,
    Seq<char>,
>
    decreases items.len(),
{
    if items.len() == 0 {
        Ok(Seq::empty())
    } else {
        match (roots_of(items.drop_last()), items.last()) {
            (Err(text), _) => Err(text),
            (Ok(_), Err(text)) => Err("parse CA PEM: "@ + text),
            (Ok(before), Ok(der)) => match root_in(der) {
                Ok(root) => Ok(before.push(root)),
                Err(text) => Err("add CA: "@ + text),
            },
        }
    }
}

/// An error ends the list: whatever follows, it is the error of the whole.
proof fn lemma_first_fault(items: Seq<Result<Seq<u8>, Seq<char>>>, k: int)
    requires
        0 <= k <= items.len(),
        roots_of(items.take(k)) is Err,
    ensures
        roots_of(items) == roots_of(items.take(k)),
    decreases items.len() - k,
{
    if k < items.len() {
        assert(items.take(k + 1).drop_last() =~= items.take(k));
        lemma_first_fault(items, k + 1);
    } else {
        assert(items.take(k) =~= items);
    }
}

/// The error, if there is one, given what came of adding a root.
pub fn root_added(outcome: Result<(), String>) -> (r: Result<(), Error>)
    ensures
        match outcome {
            Ok(()) => r is Ok,
            Err(why) => r matches Err(e) && e.is_config("add CA: "@ + why@),
        },
{
    match outcome {
        Ok(()) => Ok(()),
        Err(why) => Err(Error::config_with("add CA: ", why.as_str())),
    }
}

/// Trust what was read in a PEM text, besides `roots`.
pub fn add_roots(roots: RootCertStore, items: &[Result<Vec<u8>, String>]) -> (r: Result<
    RootCertStore,
    Error,
>)
    ensures
        match roots_of(items@.map_values(|item| item_text(item))) {
            Ok(extra) => r matches Ok(store) && roots_in(store) == roots_in(roots) + extra,
            Err(text) => r matches Err(e) && e.is_config(text),
        },
{
    let ghost read = items@.map_values(|item| item_text(item));
    let ghost given = roots_in(roots);
    let mut store = roots;
    let mut i: usize = 0;
    assert(read.take(0) =~= Seq::empty());
    assert(given + Seq::empty() =~= given);
    while i < items.len()
        invariant
            i <= items@.len(),
            read == items@.map_values(|item| item_text(item)),
            roots_of(read.take(i as int)) matches Ok(extra) && roots_in(store) == given + extra,
        decreases items@.len() - i,
    {
        let ghost before = roots_of(read.take(i as int))->Ok_0;
        proof {
            assert(read.take(i + 1).drop_last() =~= read.take(i as int));
            assert(read.take(i + 1).last() == item_text(items@[i as int]));
            if roots_of(read.take(i + 1)) is Err {
                lemma_first_fault(read, i + 1);
            }
        }
        match &items[i] {
            Ok(der) => {
                match root_added(add_root(&mut store, der.as_slice())) {
                    Ok(()) => {
                        assert(roots_in(store) =~= given + roots_of(read.take(i + 1))->Ok_0);
                    },
                    Err(e) => {
                        return Err(e);
                    },
                }
            },
            Err(e) => {
                return Err(Error::config_with("parse CA PEM: ", e.as_str()));
            },
        }
        i += 1;
    }
    assert(read.take(i as int) =~= read);
    Ok(store)
}

/// What a PEM text of additional roots holds. There is nothing in an empty one.
pub open spec fn ca_items(ca_pem: Seq<char>) -> Seq<Result<Seq<u8>, Seq<char>>> {
    if ca_pem.len() == 0 {
        Seq::empty()
    } else {
        pem_certs(encode_utf8(ca_pem))
    }
}

/// Trust the certificates of a PEM text, besides `roots`.
pub fn with_extra_roots(roots: RootCertStore, ca_pem: &str) -> (r: Result<RootCertStore, Error>)
    ensures
        match roots_of(ca_items(ca_pem@)) {
            Ok(extra) => r matches Ok(store) && roots_in(store) == roots_in(roots) + extra,
            Err(text) => r matches Err(e) && e.is_config(text),
        },
{
    if ca_pem.is_empty() {
        assert(roots_in(roots) + Seq::empty() =~= roots_in(roots));
        return Ok(roots);
    }
    let items = read_pem_certs(ca_pem.as_bytes());
    add_roots(roots, items.as_slice())
}

/// What is trusted without the caller saying so.
pub open spec fn system_roots() -> Seq<(Seq<u8>, Seq<u8>, Option<Seq<u8>>)> {
    and_system_roots(Seq::empty())
}

/// System roots plus any caller-provided PEM CAs, which come last.
pub fn build_roots(ca_pem: &str) -> (r: Result<RootCertStore, Error>)
    ensures
        match roots_of(ca_items(ca_pem@)) {
            Ok(extra) => {
                &&& r matches Ok(store) && roots_in(store) == system_roots() + extra
                &&& system_roots().len() > 0
            },
            Err(text) => r matches Err(e) && e.is_config(text),
        },
{
    let mut roots = RootCertStore::empty();
    add_system_roots(&mut roots);
    with_extra_roots(roots, ca_pem)
}

/// The characters of a pin that count are those that are no separators, in order.
pub proof fn law_pin_digits(s: Seq<char>, c: char)
    ensures
        pin_digits(Seq::empty()).len() == 0,
        c == ':' || text::is_white_space(c) ==> pin_digits(s.push(c)) == pin_digits(s),
        c != ':' && !text::is_white_space(c) ==> pin_digits(s.push(c)) == pin_digits(s).push(c),
{
    assert(s.push(c).drop_last() =~= s);
}

/// The hexadecimal digits and their values: `0` to `9`, and `a` to `f` in either case.
pub proof fn law_hex_digits(c: char, n: nat)
    ensures
        n < 10 && c as u32 == 0x30 + n ==> hex_digit(c) == Some(n),
        10 <= n < 16 && c as u32 == 0x61 + (n - 10) ==> hex_digit(c) == Some(n),
        10 <= n < 16 && c as u32 == 0x41 + (n - 10) ==> hex_digit(c) == Some(n),
        hex_digit(c) is Some ==> '0' <= c <= '9' || 'a' <= c <= 'f' || 'A' <= c <= 'F',
{
}

/// Two digits spell a byte, the higher first.
pub proof fn law_hex_pair(a: char, b: char)
    ensures
        match (hex_digit(a), hex_digit(b)) {
            (Some(x), Some(y)) => hex_pair(a, b) == Some(16 * x + y) && 16 * x + y <= 255,
            _ => hex_pair(a, b) is None,
        },
{
}

/// A digest takes 64 digits, two for each of its bytes in order, and no other character will do.
pub proof fn law_hex_bytes(digits: Seq<char>, i: int)
    requires
        0 <= i < 32,
    ensures
        is_hex(digits) <==> digits.len() == 64 && forall|k: int|
            0 <= k < 64 ==> hex_digit(#[trigger] digits[k]) is Some,
        hex_bytes(digits).len() == 32,
        is_hex(digits) ==> hex_bytes(digits)[i] == 16 * hex_digit(digits[2 * i])->0 + hex_digit(
            digits[2 * i + 1],
        )->0,
{
    if is_hex(digits) {
        assert forall|k: int| 0 <= k < 64 implies hex_digit(#[trigger] digits[k]) is Some by {
            let j = k / 2;
            assert(hex_pair(digits[2 * j], digits[2 * j + 1]) is Some);
            assert(k == 2 * j || k == 2 * j + 1);
        }
        assert(hex_pair(digits[2 * i], digits[2 * i + 1]) is Some);
        law_hex_pair(digits[2 * i], digits[2 * i + 1]);
    }
    if digits.len() == 64 && forall|k: int|
        0 <= k < 64 ==> hex_digit(#[trigger] digits[k]) is Some {
        assert forall|j: int| 0 <= j < 32 implies hex_pair(
            #[trigger] digits[2 * j],
            digits[2 * j + 1],
        ) is Some by {
            assert(hex_digit(digits[2 * j]) is Some && hex_digit(digits[2 * j + 1]) is Some);
        }
    }
}

/// What is said of a pin: nothing if there is none or it is 64 digits, and otherwise whether it
/// is its length or its digits that are wrong.
pub proof fn law_pin_fault(s: Seq<char>)
    ensures
        ({
            let digits = pin_digits(s);
            let good = s.len() == 0 || is_hex(digits);
            &&& pin_fault(s) is None <==> good
            &&& !good && encode_utf8(digits).len() != 64 ==> pin_fault(s) == Some(
                "pin_sha256 must be 32 bytes (64 hex chars)"@,
            )
            &&& !good && encode_utf8(digits).len() == 64 ==> pin_fault(s) == Some(
                "pin_sha256 is not valid hex"@,
            )
        }),
{
}

/// What each policy makes of a certificate: a pin must match, and then, as without a pin, it is
/// the chain that decides unless it is not to be looked at.
pub proof fn law_verdict(policy: CertPolicy, digest: Seq<u8>)
    ensures
        match policy {
            CertPolicy::Chain => verdict(policy, digest) is AskChain,
            CertPolicy::AcceptAll => verdict(policy, digest) is Accept,
            CertPolicy::Pinned { pin, chain } => {
                &&& verdict(policy, digest) is Reject <==> pin@ != digest
                &&& verdict(policy, digest) is AskChain <==> pin@ == digest && chain
                &&& verdict(policy, digest) is Accept <==> pin@ == digest && !chain
            },
        },
{
}

/// Roots are taken one after the other, and the first item that gives none is the error of the
/// whole, whatever follows.
pub proof fn law_roots_in_order(
    items: Seq<Result<Seq<u8>, Seq<char>>>,
    item: Result<Seq<u8>, Seq<char>>,
)
    ensures
        roots_of(Seq::empty()) matches Ok(none) && none.len() == 0,
        match roots_of(items) {
            Err(text) => roots_of(items.push(item)) == Err::<
                Seq<(Seq<u8>, Seq<u8>, Option<Seq<u8>>)>,
                Seq<char>,
            >(text),
            Ok(before) => match item {
                Err(text) => roots_of(items.push(item)) matches Err(e) && e == "parse CA PEM: "@
                    + text,
                Ok(der) => match root_in(der) {
                    Ok(root) => roots_of(items.push(item)) matches Ok(all) && all == before.push(
                        root,
                    ),
                    Err(text) => roots_of(items.push(item)) matches Err(e) && e == "add CA: "@
                        + text,
                },
            },
        },
{
    assert(items.push(item).drop_last() =~= items);
}

/// An empty text holds no roots, and any other is read as the PEM that it is.
pub proof fn law_ca_items(ca_pem: Seq<char>, item: Result<Vec<u8>, String>)
    ensures
        ca_pem.len() == 0 ==> ca_items(ca_pem).len() == 0,
        ca_pem.len() > 0 ==> ca_items(ca_pem) == pem_certs(encode_utf8(ca_pem)),
        item matches Ok(der) ==> item_text(item) == Ok::<Seq<u8>, Seq<char>>(der@),
        item matches Err(e) ==> item_text(item) == Err::<Seq<u8>, Seq<char>>(e@),
{
}

/// What is trusted at first is what the system list makes of a store without roots.
pub proof fn law_system_roots()
    ensures
        system_roots() == and_system_roots(Seq::empty()),
{
}

} // verus!
