//! "Salamander" packet obfuscation.
//!
//! Each QUIC packet is prefixed with a random 8-byte salt and XOR'd with
//! `BLAKE2b-256(PSK || salt)`, repeating the 32-byte key over the payload.
//! Wire format: `[8-byte salt][obfuscated payload]`.

use blake2::digest::consts::U32;
use blake2::{Blake2b, Digest};
use vstd::prelude::*;

use crate::random;
use crate::wire;

verus! {

pub const SALT_LEN: usize = 8;

pub const KEY_LEN: usize = 32;

/// Minimum pre-shared key length.
pub const MIN_PSK_LEN: usize = 4;

/// The BLAKE2b digest of `data` with an output of 32 bytes.
pub uninterp spec fn blake2b_256(data: Seq<u8>) -> Seq<u8>;

/// `blake2::Blake2b<U32>`, fed with `psk` and then with `salt`, finishes with the digest of
/// the two in a row.
#[verifier::external_body]
fn digest_of(psk: &[u8], salt: &[u8]) -> (key: [u8; 32])
    ensures
        key@ == blake2b_256(psk@ + salt@),
{
    let mut h = Blake2b::<U32>::new();
    h.update(psk);
    h.update(salt);
    h.finalize().into()
}

/// `text` XOR'd with `key`, which is repeated as often as it takes.
pub open spec fn xored(text: Seq<u8>, key: Seq<u8>) -> Seq<u8> {
    Seq::new(text.len(), |i: int| text[i] ^ key[i % (KEY_LEN as int)])
}

/// The packet that carries `payload` under the key `psk` with the salt `salt`.
pub open spec fn obfuscated(psk: Seq<u8>, salt: Seq<u8>, payload: Seq<u8>) -> Seq<u8> {
    salt + xored(payload, blake2b_256(psk + salt))
}

/// The payload of `packet`, which begins with its salt.
pub open spec fn deobfuscated(psk: Seq<u8>, packet: Seq<u8>) -> Seq<u8> {
    let salt = packet.take(SALT_LEN as int);
    xored(packet.skip(SALT_LEN as int), blake2b_256(psk + salt))
}

/// Whether `after` is a buffer that held `before` and into which `payload` was masked under the
/// key `psk`, with the salt that now stands at its front; if it has no room for that, nothing
/// was written. `n` is the number of bytes written.
pub open spec fn is_masked(
    psk: Seq<u8>,
    payload: Seq<u8>,
    before: Seq<u8>,
    after: Seq<u8>,
    n: nat,
) -> bool {
    &&& after.len() == before.len()
    &&& if before.len() < payload.len() + SALT_LEN {
        n == 0 && after == before
    } else {
        &&& n == payload.len() + SALT_LEN
        &&& after == obfuscated(psk, after.take(SALT_LEN as int), payload) + before.skip(n as int)
    }
}

/// Whether `after` is a buffer that held `before` and into which the payload of `packet` was
/// unmasked; if the packet is too short, or the buffer has no room, nothing was written. `n` is
/// the number of bytes written.
pub open spec fn is_unmasked(
    psk: Seq<u8>,
    packet: Seq<u8>,
    before: Seq<u8>,
    after: Seq<u8>,
    n: nat,
) -> bool {
    if packet.len() <= SALT_LEN || before.len() < packet.len() - SALT_LEN {
        n == 0 && after == before
    } else {
        &&& n == packet.len() - SALT_LEN
        &&& after == deobfuscated(psk, packet) + before.skip(n as int)
    }
}

/// What one obfuscator masks, another with the same key unmasks: whatever the salt and however
/// long the payload, as long as it is not empty and both buffers have room for it.
pub proof fn law_masked_then_unmasked(
    psk: Seq<u8>,
    payload: Seq<u8>,
    packet_before: Seq<u8>,
    packet_after: Seq<u8>,
    n: nat,
    out_before: Seq<u8>,
    out_after: Seq<u8>,
    m: nat,
)
    requires
        payload.len() > 0,
        packet_before.len() >= payload.len() + SALT_LEN,
        is_masked(psk, payload, packet_before, packet_after, n),
        out_before.len() >= payload.len(),
        is_unmasked(psk, packet_after.take(n as int), out_before, out_after, m),
    ensures
        m == payload.len(),
        out_after.take(m as int) == payload,
        out_after.skip(m as int) == out_before.skip(m as int),
{
    let salt = packet_after.take(SALT_LEN as int);
    law_obfuscation_round_trip(psk, salt, payload);
    assert(packet_after.take(n as int) =~= obfuscated(psk, salt, payload));
    assert(out_after.take(m as int) =~= payload);
    assert(out_after.skip(m as int) =~= out_before.skip(m as int));
}

/// Unmasking a packet gives back the payload that was masked, whatever the salt.
pub proof fn law_obfuscation_round_trip(psk: Seq<u8>, salt: Seq<u8>, payload: Seq<u8>)
    requires
        salt.len() == SALT_LEN,
    ensures
        deobfuscated(psk, obfuscated(psk, salt, payload)) == payload,
        obfuscated(psk, salt, payload).len() == payload.len() + SALT_LEN,
{
    let key = blake2b_256(psk + salt);
    let packet = obfuscated(psk, salt, payload);
    assert(packet.take(SALT_LEN as int) =~= salt);
    assert(packet.skip(SALT_LEN as int) =~= xored(payload, key));
    assert forall|i: int| 0 <= i < payload.len() implies #[trigger] xored(
        xored(payload, key),
        key,
    )[i] == payload[i] by {
        let a = payload[i];
        let b = key[i % (KEY_LEN as int)];
        assert((a ^ b) ^ b == a) by (bit_vector);
    }
    assert(xored(xored(payload, key), key) =~= payload);
}

/// XOR `text` with `key`, repeating it, into `out` from the index `at` on.
fn xor_into(text: &[u8], key: &[u8; 32], out: &mut [u8], at: usize)
    requires
        at + text@.len() <= old(out)@.len(),
    ensures
        final(out)@ == old(out)@.take(at as int) + xored(text@, key@) + old(out)@.skip(
            at + text@.len(),
        ),
{
    let ghost before = out@;
    let ghost masked = xored(text@, key@);
    let room: usize = out.len();
    let mut i: usize = 0;
    while i < text.len()
        invariant
            i <= text@.len(),
            out@.len() == before.len() == room,
            at + text@.len() <= before.len(),
            masked == xored(text@, key@),
            out@ =~= before.take(at as int) + masked.take(i as int) + before.skip(at + i),
        decreases text@.len() - i,
    {
        out[at + i] = text[i] ^ key[i % KEY_LEN];
        i += 1;
    }
    assert(masked.take(i as int) =~= masked);
}

/// Write the salt `salt` and `input`, masked with `key`, into `out`, returning the number of
/// bytes written (`input.len() + 8`), or `0` if `out` is too small.
pub fn mask(key: &[u8; 32], salt: &[u8; 8], input: &[u8], out: &mut [u8]) -> (n: usize)
    ensures
        old(out)@.len() < input@.len() + SALT_LEN ==> n == 0 && final(out)@ == old(out)@,
        old(out)@.len() >= input@.len() + SALT_LEN ==> {
            &&& n == input@.len() + SALT_LEN
            &&& final(out)@ == salt@ + xored(input@, key@) + old(out)@.skip(n as int)
        },
{
    let room: usize = out.len();
    if room < SALT_LEN || room - SALT_LEN < input.len() {
        return 0;
    }
    let ghost before = out@;
    wire::copy_into(out, 0, salt.as_slice());
    xor_into(input, key, out, SALT_LEN);
    assert(out@ =~= salt@ + xored(input@, key@) + before.skip(input@.len() + SALT_LEN));
    input.len() + SALT_LEN
}

/// Write what follows the salt in `input`, unmasked with `key`, into `out`, returning the
/// number of payload bytes (`input.len() - 8`), or `0` if the packet is too short / `out` too
/// small.
pub fn unmask(key: &[u8; 32], input: &[u8], out: &mut [u8]) -> (n: usize)
    ensures
        input@.len() <= SALT_LEN || old(out)@.len() < input@.len() - SALT_LEN ==> n == 0
            && final(out)@ == old(out)@,
        input@.len() > SALT_LEN && old(out)@.len() >= input@.len() - SALT_LEN ==> {
            &&& n == input@.len() - SALT_LEN
            &&& final(out)@ == xored(input@.skip(SALT_LEN as int), key@) + old(out)@.skip(n as int)
        },
{
    if input.len() <= SALT_LEN {
        return 0;
    }
    let out_len: usize = input.len() - SALT_LEN;
    if out.len() < out_len {
        return 0;
    }
    let ghost before = out@;
    let masked = vstd::slice::slice_subrange(input, SALT_LEN, input.len());
    xor_into(masked, key, out, 0);
    assert(masked@ =~= input@.skip(SALT_LEN as int));
    assert(out@ =~= xored(masked@, key@) + before.skip(out_len as int));
    out_len
}

/// Salamander obfuscator; holds only the pre-shared key.
pub struct Salamander {
    psk: Vec<u8>,
}

impl View for Salamander {
    type V = Seq<u8>;

    /// The pre-shared key.
    closed spec fn view(&self) -> Seq<u8> {
        self.psk@
    }
}

impl Clone for Salamander {
    fn clone(&self) -> (r: Self)
        ensures
            r@ == self@,
    {
        proof {
            use_type_invariant(self);
        }
        Salamander { psk: vstd::slice::slice_to_vec(self.psk.as_slice()) }
    }
}

impl Salamander {
    /// No obfuscator has a key that is too short.
    #[verifier::type_invariant]
    spec fn has_psk(self) -> bool {
        self.psk@.len() >= MIN_PSK_LEN
    }

    /// Build an obfuscator from a pre-shared key. Returns `None` if the key is
    /// shorter than [`MIN_PSK_LEN`].
    pub fn new(psk: &[u8]) -> (r: Option<Salamander>)
        ensures
            match r {
                Some(s) => psk@.len() >= MIN_PSK_LEN && s@ == psk@,
                None => psk@.len() < MIN_PSK_LEN,
            },
    {
        if psk.len() < MIN_PSK_LEN {
            return None;
        }
        Some(Salamander { psk: vstd::slice::slice_to_vec(psk) })
    }

    /// The mask for packets with the salt `salt`.
    pub fn key(&self, salt: &[u8]) -> (key: [u8; 32])
        ensures
            key@ == blake2b_256(self@ + salt@),
    {
        digest_of(self.psk.as_slice(), salt)
    }

    /// Obfuscate `input` into `out` with the salt `salt`, returning the number of bytes
    /// written (`input.len() + 8`), or `0` if `out` is too small.
    pub fn obfuscate_with(&self, salt: [u8; 8], input: &[u8], out: &mut [u8]) -> (n: usize)
        ensures
            old(out)@.len() < input@.len() + SALT_LEN ==> n == 0 && final(out)@ == old(out)@,
            old(out)@.len() >= input@.len() + SALT_LEN ==> {
                &&& n == input@.len() + SALT_LEN
                &&& final(out)@ == obfuscated(self@, salt@, input@) + old(out)@.skip(n as int)
            },
    {
        let key = self.key(salt.as_slice());
        mask(&key, &salt, input, out)
    }

    /// Obfuscate `input` into `out`, returning the number of bytes written
    /// (`input.len() + 8`), or `0` if `out` is too small. The salt is drawn at random and
    /// stands at the front of what was written.
    pub fn obfuscate(&self, input: &[u8], out: &mut [u8]) -> (n: usize)
        ensures
            is_masked(self@, input@, old(out)@, final(out)@, n as nat),
    {
        let salt = random::random_salt();
        let ghost before = out@;
        let n: usize = self.obfuscate_with(salt, input, out);
        proof {
            if before.len() >= input@.len() + SALT_LEN {
                assert(out@.take(SALT_LEN as int) =~= salt@);
            }
        }
        n
    }

    /// Deobfuscate `input` into `out`, returning the number of payload bytes
    /// (`input.len() - 8`), or `0` if the packet is too short / `out` too small.
    pub fn deobfuscate(&self, input: &[u8], out: &mut [u8]) -> (n: usize)
        ensures
            is_unmasked(self@, input@, old(out)@, final(out)@, n as nat),
    {
        if input.len() <= SALT_LEN {
            return 0;
        }
        let salt = vstd::slice::slice_subrange(input, 0, SALT_LEN);
        let key = self.key(salt);
        assert(salt@ =~= input@.take(SALT_LEN as int));
        unmask(&key, input, out)
    }
}

/// A masked packet is its salt and as many bytes as the payload has, each the XOR of a payload
/// byte with a byte of the digest of key and salt, which is 32 bytes long and starts over at its
/// end.
pub proof fn law_masked_layout(psk: Seq<u8>, salt: Seq<u8>, payload: Seq<u8>, i: int)
    requires
        salt.len() == 8,
    ensures
        ({
            let p = obfuscated(psk, salt, payload);
            &&& p.len() == 8 + payload.len()
            &&& p.take(8) == salt
            &&& 0 <= i < payload.len() ==> p[8 + i] == payload[i] ^ blake2b_256(psk + salt)[i % 32]
        }),
{
    assert(obfuscated(psk, salt, payload).take(8) =~= salt);
}

/// An unmasked packet is what follows its first eight bytes, each byte the XOR with a byte of the
/// digest of the key and those eight.
pub proof fn law_unmasked_layout(psk: Seq<u8>, packet: Seq<u8>, i: int)
    requires
        packet.len() >= 8,
    ensures
        ({
            let t = deobfuscated(psk, packet);
            &&& t.len() == packet.len() - 8
            &&& 0 <= i < t.len() ==> t[i] == packet[8 + i] ^ blake2b_256(
                psk + packet.take(8),
            )[i % 32]
        }),
{
}

/// Masking with a given key, byte by byte: the key of 32 bytes starts over at its end.
pub proof fn law_xored(text: Seq<u8>, key: Seq<u8>, i: int)
    ensures
        xored(text, key).len() == text.len(),
        0 <= i < text.len() ==> xored(text, key)[i] == text[i] ^ key[i % 32],
{
}

/// Masking takes eight bytes more than the payload has. Where there is room for them, they are at
/// the front of the buffer and the rest of it stays; where there is none, nothing is written.
pub proof fn law_masked_in_place(
    psk: Seq<u8>,
    payload: Seq<u8>,
    before: Seq<u8>,
    after: Seq<u8>,
    n: nat,
)
    requires
        is_masked(psk, payload, before, after, n),
    ensures
        after.len() == before.len(),
        before.len() < payload.len() + 8 ==> n == 0 && after == before,
        before.len() >= payload.len() + 8 ==> {
            &&& n == payload.len() + 8
            &&& after.take(n as int) == obfuscated(psk, after.take(8), payload)
            &&& after.skip(n as int) == before.skip(n as int)
        },
{
    if before.len() >= payload.len() + 8 {
        let packet = obfuscated(psk, after.take(8), payload);
        assert(packet.len() == n);
        assert(after.take(n as int) =~= packet);
        assert(after.skip(n as int) =~= before.skip(n as int));
    }
}

/// Unmasking takes eight bytes fewer than the packet has. Where the packet has more than eight
/// and there is room for the rest, that is at the front of the buffer and what follows stays;
/// otherwise nothing is written.
pub proof fn law_unmasked_in_place(
    psk: Seq<u8>,
    packet: Seq<u8>,
    before: Seq<u8>,
    after: Seq<u8>,
    n: nat,
)
    requires
        is_unmasked(psk, packet, before, after, n),
    ensures
        packet.len() <= 8 || before.len() + 8 < packet.len() ==> n == 0 && after == before,
        packet.len() > 8 && before.len() + 8 >= packet.len() ==> {
            &&& n + 8 == packet.len()
            &&& after.len() == before.len()
            &&& after.take(n as int) == deobfuscated(psk, packet)
            &&& after.skip(n as int) == before.skip(n as int)
        },
{
    if packet.len() > 8 && before.len() + 8 >= packet.len() {
        let text = deobfuscated(psk, packet);
        assert(text.len() == n);
        assert(after.take(n as int) =~= text);
        assert(after.skip(n as int) =~= before.skip(n as int));
    }
}

/// A key of fewer than four bytes is too short.
pub proof fn law_shortest_key(psk: Seq<u8>)
    ensures
        psk.len() < MIN_PSK_LEN <==> psk.len() < 4,
{
}

} // verus!
