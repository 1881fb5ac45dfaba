//! Salamander obfuscation and/or UDP port hopping underneath QUIC.
//!
//! Both features live at the datagram layer:
//! - **Obfuscation**: outbound packets are XOR-masked + salted; inbound packets
//!   are unmasked. Every datagram carries its own salt, so they are sent and
//!   received one by one.
//! - **Port hopping**: outbound packets are redirected to a rotating port out
//!   of a configured range, and the *source* address of inbound packets is
//!   rewritten back to the canonical server address so that QUIC never perceives a
//!   path change.

use vstd::prelude::*;

use crate::addr::SocketAddress;
use crate::obfs;
use crate::obfs::Salamander;
use crate::random;
use crate::time::TimeSpan;

verus! {

/// The room for one datagram on its way through the obfuscation.
pub const SCRATCH_DATAGRAM: usize = 2048;

/// Port-hopping parameters.
pub struct HopConfig {
    /// Candidate server addresses (same IP, one per port in the range).
    pub addrs: Vec<SocketAddress>,
    /// Lower bound of the random hop interval.
    pub interval_min: TimeSpan,
    /// Upper bound of the random hop interval (== min for a fixed interval).
    pub interval_max: TimeSpan,
}

impl Clone for HopConfig {
    fn clone(&self) -> (r: Self)
        ensures
            r.addrs@ == self.addrs@,
            r.interval_min == self.interval_min,
            r.interval_max == self.interval_max,
    {
        let addrs = self.addrs.clone();
        assert(addrs@ =~= self.addrs@);
        HopConfig { addrs, interval_min: self.interval_min, interval_max: self.interval_max }
    }
}

/// The most milliseconds that a wait between `min` and `max` lasts longer than `min`, as a
/// number of 64 bits.
pub open spec fn most_extra(min: TimeSpan, max: TimeSpan) -> nat {
    if min.in_nanos() >= max.in_nanos() {
        0
    } else {
        ((max.in_nanos() - min.in_nanos()) / 1_000_000) as nat % 0x1_0000_0000_0000_0000
    }
}

/// The wait of `extra` milliseconds more than `min`, in nanoseconds.
pub open spec fn wait_nanos(min: TimeSpan, max: TimeSpan, extra: nat) -> nat {
    if min.in_nanos() >= max.in_nanos() {
        min.in_nanos()
    } else {
        min.in_nanos() + extra * 1_000_000
    }
}

/// However long the wait before the next hop, it keeps to the interval; a fixed interval is
/// kept to exactly.
pub proof fn law_wait_keeps_to_interval(min: TimeSpan, max: TimeSpan, extra: nat)
    requires
        extra <= most_extra(min, max),
    ensures
        min.in_nanos() <= wait_nanos(min, max, extra),
        min.in_nanos() < max.in_nanos() ==> wait_nanos(min, max, extra) <= max.in_nanos(),
        min.in_nanos() >= max.in_nanos() ==> wait_nanos(min, max, extra) == min.in_nanos(),
{
    if min.in_nanos() < max.in_nanos() {
        let d = max.in_nanos() - min.in_nanos();
        let most = d / 1_000_000;
        assert(most_extra(min, max) <= most) by {
            vstd::arithmetic::div_mod::lemma_mod_decreases(most as nat, 0x1_0000_0000_0000_0000);
        }
        assert(most * 1_000_000 <= d);
    }
}

impl HopConfig {
    /// The most milliseconds to wait beyond the lower bound.
    pub fn most_extra_millis(&self) -> (n: u64)
        requires
            self.interval_min.wf(),
            self.interval_max.wf(),
        ensures
            n == most_extra(self.interval_min, self.interval_max),
    {
        let min: u128 = self.interval_min.as_nanos();
        let max: u128 = self.interval_max.as_nanos();
        if min >= max {
            0
        } else {
            ((max - min) / 1_000_000 % 0x1_0000_0000_0000_0000) as u64
        }
    }

    /// The wait before the next hop, `extra` milliseconds beyond the lower bound unless the
    /// interval is fixed.
    pub fn wait_with(&self, extra: u64) -> (t: TimeSpan)
        requires
            self.interval_min.wf(),
            self.interval_max.wf(),
            extra <= most_extra(self.interval_min, self.interval_max),
        ensures
            t.wf(),
            t.in_nanos() == wait_nanos(self.interval_min, self.interval_max, extra as nat),
    {
        let min: u128 = self.interval_min.as_nanos();
        let max: u128 = self.interval_max.as_nanos();
        if min >= max {
            self.interval_min
        } else {
            proof {
                law_wait_keeps_to_interval(self.interval_min, self.interval_max, extra as nat);
            }
            TimeSpan::from_nanos(min + extra as u128 * 1_000_000)
        }
    }

    /// A random wait before the next hop, a whole number of milliseconds beyond the lower bound.
    pub fn draw_wait(&self) -> (t: TimeSpan)
        requires
            self.interval_min.wf(),
            self.interval_max.wf(),
        ensures
            t.wf(),
            self.interval_min.in_nanos() <= t.in_nanos(),
            self.interval_min.in_nanos() < self.interval_max.in_nanos() ==> t.in_nanos()
                <= self.interval_max.in_nanos(),
            self.interval_min.in_nanos() >= self.interval_max.in_nanos() ==> t.in_nanos()
                == self.interval_min.in_nanos(),
            exists|extra: nat|
                extra <= most_extra(self.interval_min, self.interval_max) && t.in_nanos()
                    == #[trigger] wait_nanos(self.interval_min, self.interval_max, extra),
    {
        let extra: u64 = random::random_between(0, self.most_extra_millis());
        proof {
            law_wait_keeps_to_interval(self.interval_min, self.interval_max, extra as nat);
        }
        self.wait_with(extra)
    }
}

/// What becomes of a packet on its way out.
#[derive(Debug, Clone, Copy)]
pub enum Outgoing {
    /// It goes out as it is.
    Plain { destination: SocketAddress },
    /// What goes out is the first `len` bytes of the scratch buffer.
    Masked { destination: SocketAddress, len: usize },
    /// It is too large for the scratch buffer and does not go out.
    Dropped,
}

/// A packet on its way in.
pub struct Arrival {
    /// Which of the received packets it is.
    pub index: usize,
    /// Where it is to be reported to come from.
    pub source: SocketAddress,
    pub payload: Vec<u8>,
}

/// What to do about a batch of packets that came in.
pub enum Incoming {
    /// Hand these on, in order.
    Deliver(Vec<Arrival>),
    /// None of them could be unmasked: receive again.
    ReceiveAgain,
}

/// The features of a socket.
pub ghost struct Features {
    /// The obfuscation key, if packets are obfuscated.
    pub psk: Option<Seq<u8>>,
    /// Whether the destination rotates.
    pub hopping: bool,
    /// The addresses that it rotates through.
    pub addrs: Seq<SocketAddress>,
    /// The address that QUIC was told to dial.
    pub canonical: SocketAddress,
}

impl Features {
    /// A rotation needs two addresses at least.
    pub open spec fn wf(self) -> bool {
        self.hopping ==> self.addrs.len() > 1
    }

    /// Where packets go when the rotation is at `index`.
    pub open spec fn dest(self, index: nat) -> SocketAddress {
        if self.hopping {
            self.addrs[(index % self.addrs.len()) as int]
        } else {
            self.canonical
        }
    }

    /// Where a packet from `from` is to be reported to come from.
    pub open spec fn source(self, from: SocketAddress) -> SocketAddress {
        if self.hopping {
            self.canonical
        } else {
            from
        }
    }
}

/// The payloads of those of `packets` that can be unmasked, each with its index. The one that
/// comes out as number `i` must fit into `room[i]` bytes.
pub open spec fn unmasked(psk: Seq<u8>, packets: Seq<Seq<u8>>, room: Seq<usize>) -> Seq<
    (int, Seq<u8>),
>
    decreases packets.len(),
{
    if packets.len() == 0 {
        Seq::empty()
    } else {
        let before = unmasked(psk, packets.drop_last(), room);
        let p = packets.last();
        if p.len() > obfs::SALT_LEN && p.len() - obfs::SALT_LEN <= room[before.len() as int] {
            before.push((packets.len() - 1, obfs::deobfuscated(psk, p)))
        } else {
            before
        }
    }
}

/// The packets in `scratch`: one at the front of every [`SCRATCH_DATAGRAM`] bytes, as long as
/// `lens` says.
pub open spec fn packets_in(scratch: Seq<u8>, lens: Seq<usize>) -> Seq<Seq<u8>> {
    Seq::new(
        lens.len(),
        |k: int|
            scratch.subrange(k * SCRATCH_DATAGRAM, k * SCRATCH_DATAGRAM + lens[k]),
    )
}

/// A packet that was masked arrives with the payload that it was made of.
pub proof fn law_masked_packet_arrives(
    psk: Seq<u8>,
    salt: Seq<u8>,
    payload: Seq<u8>,
    room: Seq<usize>,
)
    requires
        salt.len() == obfs::SALT_LEN,
        0 < payload.len() <= room[0],
    ensures
        unmasked(psk, seq![obfs::obfuscated(psk, salt, payload)], room) == seq![
            (0int, payload),
        ],
{
    obfs::law_obfuscation_round_trip(psk, salt, payload);
    let packets = seq![obfs::obfuscated(psk, salt, payload)];
    assert(packets.drop_last() =~= Seq::empty());
    assert(unmasked(psk, packets.drop_last(), room) =~= Seq::empty());
    assert(unmasked(psk, packets, room) =~= seq![(0int, payload)]);
}

/// Wherever the rotation is, packets go to one of the configured addresses, and those that come
/// back are reported to come from the address that QUIC dialed.
pub proof fn law_hopping_is_hidden(f: Features, index: nat, from: SocketAddress)
    requires
        f.wf(),
        f.hopping,
    ensures
        f.addrs.contains(f.dest(index)),
        f.source(from) == f.canonical,
{
    let i = (index % f.addrs.len()) as int;
    assert(f.addrs[i] == f.dest(index));
}

/// A socket that applies obfuscation and/or port hopping.
pub struct ObfsHopSocket {
    obfs: Option<Salamander>,
    hopping: bool,
    hop_addrs: Vec<SocketAddress>,
    /// The address QUIC was told to dial: while hopping, all inbound packets are reported as
    /// coming from here so that path validation stays happy.
    canonical: SocketAddress,
}

/// The key of an obfuscator, if there is one.
pub open spec fn psk_of(obfs: Option<Salamander>) -> Option<Seq<u8>> {
    match obfs {
        Some(s) => Some(s@),
        None => None,
    }
}

impl View for ObfsHopSocket {
    type V = Features;

    closed spec fn view(&self) -> Features {
        Features {
            psk: psk_of(self.obfs),
            hopping: self.hopping,
            addrs: self.hop_addrs@,
            canonical: self.canonical,
        }
    }
}

impl ObfsHopSocket {
    /// `canonical` is the address that QUIC dials. Returns `None` only if neither feature is
    /// requested. A range of a single port needs no rotation and is treated as no hopping.
    pub fn new(
        canonical: SocketAddress,
        obfs: Option<Salamander>,
        hop: Option<HopConfig>,
    ) -> (r: Option<ObfsHopSocket>)
        ensures
            match r {
                None => obfs is None && hop is None,
                Some(s) => {
                    &&& obfs is Some || hop is Some
                    &&& s@.wf()
                    &&& s@ == (Features {
                        psk: psk_of(obfs),
                        hopping: hop matches Some(cfg) && cfg.addrs@.len() > 1,
                        addrs: match hop {
                            Some(cfg) => cfg.addrs@,
                            None => seq![canonical],
                        },
                        canonical,
                    })
                },
            },
    {
        if obfs.is_none() && hop.is_none() {
            return None;
        }
        match hop {
            Some(cfg) => {
                let hopping: bool = cfg.addrs.len() > 1;
                Some(ObfsHopSocket { obfs, hopping, hop_addrs: cfg.addrs, canonical })
            },
            None => {
                let mut hop_addrs: Vec<SocketAddress> = Vec::new();
                hop_addrs.push(canonical);
                assert(hop_addrs@ =~= seq![canonical]);
                Some(ObfsHopSocket { obfs, hopping: false, hop_addrs, canonical })
            },
        }
    }

    /// Whether packets are obfuscated.
    pub fn is_obfuscated(&self) -> (b: bool)
        ensures
            b == (self@.psk is Some),
    {
        self.obfs.is_some()
    }

    /// Whether the destination rotates.
    pub fn is_hopping(&self) -> (b: bool)
        ensures
            b == self@.hopping,
    {
        self.hopping
    }

    /// The address that QUIC was told to dial.
    pub fn canonical(&self) -> (a: SocketAddress)
        ensures
            a == self@.canonical,
    {
        self.canonical
    }

    /// A random place in the rotation, if there is one.
    pub fn draw_index(&self) -> (r: Option<usize>)
        requires
            self@.wf(),
        ensures
            match r {
                Some(i) => self@.hopping && i < self@.addrs.len(),
                None => !self@.hopping,
            },
    {
        if self.hopping {
            let last: usize = self.hop_addrs.len() - 1;
            Some(random::random_between(0, last as u64) as usize)
        } else {
            None
        }
    }

    /// The destination to send to when the rotation is at `index`.
    pub fn current_dest(&self, index: usize) -> (a: SocketAddress)
        requires
            self@.wf(),
        ensures
            a == self@.dest(index as nat),
    {
        if self.hopping {
            self.hop_addrs[index % self.hop_addrs.len()]
        } else {
            self.canonical
        }
    }

    /// Prepare a packet with the given contents, which QUIC wants sent to `destination`, when
    /// the rotation is at `index`. An obfuscated packet is put into `scratch`; one that does not
    /// fit there is dropped silently.
    pub fn outgoing(
        &self,
        index: usize,
        destination: SocketAddress,
        contents: &[u8],
        scratch: &mut [u8],
    ) -> (r: Outgoing)
        requires
            self@.wf(),
        ensures
            ({
                let dest = if self@.hopping {
                    self@.dest(index as nat)
                } else {
                    destination
                };
                let fits = contents@.len() + obfs::SALT_LEN <= old(scratch)@.len();
                match self@.psk {
                    None => {
                        &&& r == (Outgoing::Plain { destination: dest })
                        &&& final(scratch)@ == old(scratch)@
                    },
                    Some(psk) => {
                        let len = if fits {
                            (contents@.len() + obfs::SALT_LEN) as nat
                        } else {
                            0
                        };
                        &&& obfs::is_masked(psk, contents@, old(scratch)@, final(scratch)@, len)
                        &&& r == if fits {
                            Outgoing::Masked { destination: dest, len: len as usize }
                        } else {
                            Outgoing::Dropped
                        }
                    },
                }
            }),
    {
        let dest: SocketAddress = if self.hopping {
            self.current_dest(index)
        } else {
            destination
        };
        match &self.obfs {
            None => Outgoing::Plain { destination: dest },
            Some(obfs) => {
                let n: usize = obfs.obfuscate(contents, scratch);
                if n == 0 {
                    Outgoing::Dropped
                } else {
                    Outgoing::Masked { destination: dest, len: n }
                }
            },
        }
    }

    /// Where a packet from `from` is to be reported to come from.
    pub fn source_address(&self, from: SocketAddress) -> (a: SocketAddress)
        ensures
            a == self@.source(from),
    {
        if self.hopping {
            self.canonical
        } else {
            from
        }
    }

    /// Unmask the packets that were received into `scratch`, where packet `k` stands at
    /// `k * SCRATCH_DATAGRAM` and is `lens[k]` bytes long, and came from `from[k]`. Those that
    /// fail to unmask are dropped; the one that comes out as number `i` fails too if it takes
    /// more than `room[i]` bytes. Where nothing is left, it takes another batch.
    pub fn incoming(
        &self,
        scratch: &[u8],
        lens: &[usize],
        from: &[SocketAddress],
        room: &[usize],
    ) -> (r: Incoming)
        requires
            self@.psk is Some,
            lens@.len() * SCRATCH_DATAGRAM <= scratch@.len(),
            forall|k: int| 0 <= k < lens@.len() ==> #[trigger] lens@[k] <= SCRATCH_DATAGRAM,
            lens@.len() == from@.len(),
            lens@.len() <= room@.len(),
        ensures
            ({
                let got = unmasked(self@.psk->0, packets_in(scratch@, lens@), room@);
                match r {
                    Incoming::ReceiveAgain => got.len() == 0,
                    Incoming::Deliver(v) => {
                        &&& v@.len() == got.len() > 0
                        &&& forall|i: int|
                            0 <= i < v@.len() ==> {
                                &&& (#[trigger] v@[i]).index == got[i].0
                                &&& v@[i].index < lens@.len()
                                &&& v@[i].payload@ == got[i].1
                                &&& v@[i].source == self@.source(from@[v@[i].index as int])
                            }
                    },
                }
            }),
    {
        let mut out: Vec<Arrival> = Vec::new();
        let salamander = self.obfs.as_ref().unwrap();
        let n: usize = lens.len();
        let space: usize = scratch.len();
        let ghost psk = salamander@;
        let ghost packets = packets_in(scratch@, lens@);
        let mut k: usize = 0;
        while k < n
            invariant
                k <= n,
                n == lens@.len() == from@.len() == packets.len(),
                n <= room@.len(),
                space == scratch@.len(),
                n * SCRATCH_DATAGRAM <= space,
                psk == salamander@,
                self@.psk == Some(psk),
                packets == packets_in(scratch@, lens@),
                forall|j: int| 0 <= j < lens@.len() ==> #[trigger] lens@[j] <= SCRATCH_DATAGRAM,
                out@.len() == unmasked(psk, packets.take(k as int), room@).len(),
                out@.len() <= k,
                forall|i: int|
                    0 <= i < out@.len() ==> {
                        let got = unmasked(psk, packets.take(k as int), room@);
                        &&& (#[trigger] out@[i]).index == got[i].0
                        &&& out@[i].index < lens@.len()
                        &&& out@[i].payload@ == got[i].1
                        &&& out@[i].source == self@.source(from@[out@[i].index as int])
                    },
            decreases n - k,
        {
            let ghost taken = packets.take(k + 1);
            assert(taken.drop_last() =~= packets.take(k as int));
            assert(taken.last() == packets[k as int]);
            assert((k + 1) * SCRATCH_DATAGRAM <= n * SCRATCH_DATAGRAM) by (nonlinear_arith)
                requires
                    k + 1 <= n,
            ;
            let start: usize = k * SCRATCH_DATAGRAM;
            let raw = vstd::slice::slice_subrange(scratch, start, start + lens[k]);
            assert(raw@ == packets[k as int]);
            let slot: usize = out.len();
            if raw.len() > obfs::SALT_LEN && raw.len() - obfs::SALT_LEN <= room[slot] {
                let len: usize = raw.len() - obfs::SALT_LEN;
                let mut payload: Vec<u8> = vec![0u8; len];
                salamander.deobfuscate(raw, payload.as_mut_slice());
                assert(payload@ =~= obfs::deobfuscated(psk, raw@));
                let source = self.source_address(from[k]);
                out.push(Arrival { index: k, source, payload });
            }
            k += 1;
        }
        assert(packets.take(k as int) =~= packets);
        if out.len() == 0 {
            Incoming::ReceiveAgain
        } else {
            Incoming::Deliver(out)
        }
    }

    /// How many segments can go out at once, where the socket below can send `inner`.
    pub fn max_transmit_segments(&self, inner: usize) -> (n: usize)
        ensures
            n == if self@.psk is Some {
                1
            } else {
                inner
            },
    {
        if self.obfs.is_some() {
            1
        } else {
            inner
        }
    }

    /// How many segments can come in at once, where the socket below can receive `inner`.
    pub fn max_receive_segments(&self, inner: usize) -> (n: usize)
        ensures
            n == if self@.psk is Some {
                1
            } else {
                inner
            },
    {
        if self.obfs.is_some() {
            1
        } else {
            inner
        }
    }
}

/// How long a wait can be: any whole number of milliseconds beyond the lower bound that keeps to
/// the upper one. (Where that would be a number of more than 64 bits, what is beyond them is
/// lost.)
pub proof fn law_every_wait_within_interval(min: TimeSpan, max: TimeSpan, extra: nat)
    ensures
        ({
            let a = min.secs as nat * 1_000_000_000 + min.nanos as nat;
            let b = max.secs as nat * 1_000_000_000 + max.nanos as nat;
            &&& a >= b ==> most_extra(min, max) == 0 && wait_nanos(min, max, extra) == a
            &&& a < b ==> wait_nanos(min, max, extra) == a + 1_000_000 * extra
            &&& a < b && b - a < 0x1_0000_0000_0000_0000 * 1_000_000 ==> (extra <= most_extra(
                min,
                max,
            ) <==> a + 1_000_000 * extra <= b)
            &&& a < b ==> exists|k: nat|
                #![trigger (k * 0x1_0000_0000_0000_0000)]
                k * 0x1_0000_0000_0000_0000 + most_extra(min, max) == (b - a) / 1_000_000
            &&& most_extra(min, max) <= u64::MAX
        }),
{
    let a = min.secs as nat * 1_000_000_000 + min.nanos as nat;
    let b = max.secs as nat * 1_000_000_000 + max.nanos as nat;
    if a < b {
        let m = ((b - a) / 1_000_000) as nat;
        let k: nat = m / 0x1_0000_0000_0000_0000;
        assert(k * 0x1_0000_0000_0000_0000 + most_extra(min, max) == m);
    }
}

/// The rotation goes through the addresses in order and then starts over. Without hopping
/// packets go where QUIC dialed, and come from where they do.
pub proof fn law_rotation(f: Features, index: nat, from: SocketAddress)
    requires
        f.hopping ==> f.addrs.len() > 1,
    ensures
        f.wf(),
        f.hopping && index < f.addrs.len() ==> f.dest(index) == f.addrs[index as int],
        f.hopping ==> f.dest(index + f.addrs.len()) == f.dest(index),
        f.hopping ==> f.source(from) == f.canonical,
        !f.hopping ==> f.dest(index) == f.canonical,
        !f.hopping ==> f.source(from) == from,
{
    if f.hopping {
        let n = f.addrs.len();
        vstd::arithmetic::div_mod::lemma_mod_add_multiples_vanish(index as int, n as int);
        assert((index + n) % n == index % n);
        if index < n {
            vstd::arithmetic::div_mod::lemma_small_mod(index, n);
        }
    }
}

/// Packets are unmasked one after the other. One that holds a salt and something behind it, which
/// fits where it is to go, comes out under its own number; any other leaves no trace.
pub proof fn law_unmasked_in_order(
    psk: Seq<u8>,
    packets: Seq<Seq<u8>>,
    packet: Seq<u8>,
    room: Seq<usize>,
)
    ensures
        unmasked(psk, Seq::empty(), room).len() == 0,
        ({
            let before = unmasked(psk, packets, room);
            let after = unmasked(psk, packets.push(packet), room);
            if packet.len() > 8 && packet.len() - 8 <= room[before.len() as int] {
                after == before.push((packets.len() as int, obfs::deobfuscated(psk, packet)))
            } else {
                after == before
            }
        }),
{
    assert(packets.push(packet).drop_last() =~= packets);
}

/// Received packets stand 2048 bytes apart, each as long as it was.
pub proof fn law_packets_in(scratch: Seq<u8>, lens: Seq<usize>, k: int)
    requires
        0 <= k < lens.len(),
    ensures
        packets_in(scratch, lens).len() == lens.len(),
        packets_in(scratch, lens)[k] == scratch.subrange(2048 * k, 2048 * k + lens[k]),
{
}

/// The key that counts is that of the obfuscator, if there is one.
pub proof fn law_psk_of(s: Salamander)
    ensures
        psk_of(Some(s)) == Some(s@),
        psk_of(None) is None,
{
}

} // verus!
