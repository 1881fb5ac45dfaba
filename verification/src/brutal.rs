//! Brutal congestion control: a fixed-rate, loss-tolerant controller.
//!
//! Brutal sends at a configured constant bitrate and never backs off on loss.
//! Instead it tracks the recent ACK success rate and *speeds up* to compensate
//! for losses (sending `rate / ack_rate`, so 20% loss makes it ~25% faster).
//!
//! The pacing rate follows from the congestion window (`window / srtt`), so the
//! target rate is encoded into the window itself:
//! `window = bps * srtt / ack_rate`. Losses never shrink it.

use std::sync::atomic::AtomicU64;
use std::sync::Arc;

use vstd::prelude::*;

use crate::auth;
use crate::auth::AuthResponse;
use crate::time::TimeSpan;

verus! {

/// Seconds of ACK/loss history.
pub const SLOT_COUNT: usize = 5;

/// With fewer packets than this in the history, the ACK rate is taken to be 1.
pub const MIN_SAMPLE_COUNT: u64 = 50;

/// Below this, in bytes, the window is never set.
pub const MIN_WINDOW: u64 = 10_240;

/// What was acknowledged and lost in one second.
#[derive(Debug, Clone, Copy)]
pub struct Slot {
    /// The second, counted from the start of the connection.
    ts: u64,
    ack: u64,
    loss: u64,
}

/// A [`Slot`] as numbers.
pub ghost struct Second {
    pub ts: nat,
    pub ack: nat,
    pub loss: nat,
}

impl View for Slot {
    type V = Second;

    closed spec fn view(&self) -> Second {
        Second { ts: self.ts as nat, ack: self.ack as nat, loss: self.loss as nat }
    }
}

/// A history without any packets.
pub open spec fn blank_history() -> Seq<Second> {
    Seq::new(SLOT_COUNT as nat, |i: int| Second { ts: 0, ack: 0, loss: 0 })
}

/// The history after `ack` acknowledged and `loss` lost packets in the second `ts`. Each
/// second has its place, which it takes from an earlier one.
pub open spec fn recorded(slots: Seq<Second>, ts: nat, ack: nat, loss: nat) -> Seq<Second> {
    let i = (ts % (SLOT_COUNT as nat)) as int;
    let s = slots[i];
    slots.update(
        i,
        if s.ts == ts {
            Second { ts, ack: s.ack + ack, loss: s.loss + loss }
        } else {
            Second { ts, ack, loss }
        },
    )
}

/// The acknowledged packets in the seconds from `from` on.
pub open spec fn acks_since(slots: Seq<Second>, from: int) -> nat
    decreases slots.len(),
{
    if slots.len() == 0 {
        0
    } else {
        acks_since(slots.drop_last(), from) + if slots.last().ts >= from {
            slots.last().ack
        } else {
            0
        }
    }
}

/// The lost packets in the seconds from `from` on.
pub open spec fn losses_since(slots: Seq<Second>, from: int) -> nat
    decreases slots.len(),
{
    if slots.len() == 0 {
        0
    } else {
        losses_since(slots.drop_last(), from) + if slots.last().ts >= from {
            slots.last().loss
        } else {
            0
        }
    }
}

/// All packets, acknowledged or lost, that count in the second `ts`.
pub open spec fn samples(slots: Seq<Second>, ts: nat) -> nat {
    acks_since(slots, ts - SLOT_COUNT as int) + losses_since(slots, ts - SLOT_COUNT as int)
}

/// The share of packets that are acknowledged, as a fraction.
#[derive(Debug, Clone, Copy, PartialEq, Eq, Structural)]
pub struct AckRate {
    pub num: u64,
    pub den: u64,
}

impl AckRate {
    /// A rate lies between 0.8 and 1.
    pub open spec fn wf(self) -> bool {
        &&& 0 < self.num <= self.den
        &&& 4 * self.den <= 5 * self.num
    }
}

/// The ACK rate at `acks` acknowledged and `losses` lost packets: 1 if that is too few to
/// tell, and 0.8 at least.
pub open spec fn ack_rate(acks: nat, losses: nat) -> AckRate {
    if acks + losses < MIN_SAMPLE_COUNT {
        AckRate { num: 1, den: 1 }
    } else if 5 * acks < 4 * (acks + losses) {
        AckRate { num: 4, den: 5 }
    } else {
        AckRate { num: acks as u64, den: (acks + losses) as u64 }
    }
}

/// The ACK rate that a history shows in the second `ts`.
pub open spec fn shown_rate(slots: Seq<Second>, ts: nat) -> AckRate {
    ack_rate(
        acks_since(slots, ts - SLOT_COUNT as int),
        losses_since(slots, ts - SLOT_COUNT as int),
    )
}

/// The state of a [`Brutal`] controller.
pub ghost struct BrutalState {
    /// The largest packet, in bytes.
    pub mtu: u16,
    /// The smoothed round-trip time; zero before the first measurement.
    pub srtt: TimeSpan,
    pub ack_rate: AckRate,
    pub slots: Seq<Second>,
}

impl BrutalState {
    /// The state before anything was seen.
    pub open spec fn fresh(mtu: u16) -> BrutalState {
        BrutalState {
            mtu,
            srtt: TimeSpan { secs: 0, nanos: 0 },
            ack_rate: AckRate { num: 1, den: 1 },
            slots: blank_history(),
        }
    }

    pub open spec fn wf(self) -> bool {
        &&& self.slots.len() == SLOT_COUNT
        &&& self.ack_rate.wf()
    }

    /// The state after `ack` acknowledged and `loss` lost packets in the second `ts`.
    pub open spec fn after(self, ts: nat, ack: nat, loss: nat) -> BrutalState {
        let slots = recorded(self.slots, ts, ack, loss);
        BrutalState { ack_rate: shown_rate(slots, ts), slots, ..self }
    }

    /// Whether the counts stay within 64 bits with `ack` acknowledged and `loss` lost packets
    /// in the second `ts`.
    pub open spec fn has_room(self, ts: nat, ack: nat, loss: nat) -> bool {
        samples(recorded(self.slots, ts, ack, loss), ts) <= u64::MAX
    }

    /// The smallest window: two packets, or [`MIN_WINDOW`] if that is more.
    pub open spec fn floor(self) -> nat {
        if 2 * self.mtu >= MIN_WINDOW {
            2 * self.mtu as nat
        } else {
            MIN_WINDOW as nat
        }
    }

    /// How many packets a loss of `bytes` bytes is: as many as fit, and one at least.
    pub open spec fn packets(self, bytes: nat) -> nat {
        let size = if self.mtu == 0 {
            1
        } else {
            self.mtu as nat
        };
        if bytes < size {
            1
        } else {
            bytes / size
        }
    }

    /// The window where `cwnd` bytes keep up the target rate.
    pub open spec fn window(self, cwnd: nat) -> nat {
        if self.srtt.in_nanos() == 0 || cwnd < self.floor() {
            self.floor()
        } else {
            cwnd
        }
    }

    /// How many bytes keep up `rate` bytes per second: the exact quotient `rate * srtt / ack_rate`,
    /// in whole bytes. Callers of [`Brutal::window`] compute it in floating point, which is exact
    /// only up to rounding.
    pub open spec fn cwnd(self, rate: nat) -> nat {
        (rate * self.srtt.in_nanos() * self.ack_rate.den as nat) / (1_000_000_000
            * self.ack_rate.num as nat)
    }

    /// Whether the last packets were recorded in the second `ts`.
    pub open spec fn is_at(self, ts: nat) -> bool {
        &&& self.slots[(ts % 5) as int].ts == ts
        &&& self.ack_rate == shown_rate(self.slots, ts)
    }

    /// The state after something happened on the path.
    pub open spec fn on(self, event: PathEvent) -> BrutalState {
        match event {
            PathEvent::Sent => self,
            PathEvent::Acked { ts, srtt } => BrutalState { srtt, ..self.after(ts, 1, 0) },
            PathEvent::AcksEnded => self,
            PathEvent::Lost { ts, bytes } => self.after(ts, 0, self.packets(bytes)),
            PathEvent::MtuChanged { mtu } => BrutalState { mtu, ..self },
        }
    }

    /// The state after all that happened on the path, in order.
    pub open spec fn on_all(self, events: Seq<PathEvent>) -> BrutalState
        decreases events.len(),
    {
        if events.len() == 0 {
            self
        } else {
            self.on_all(events.drop_last()).on(events.last())
        }
    }
}

/// What happens on the path of a connection.
pub ghost enum PathEvent {
    Sent,
    /// A packet was acknowledged in the second `ts`; the smoothed round-trip time is now `srtt`.
    Acked { ts: nat, srtt: TimeSpan },
    AcksEnded,
    /// `bytes` bytes were found lost in the second `ts`.
    Lost { ts: nat, bytes: nat },
    MtuChanged { mtu: u16 },
}

/// Another entry in one place changes the sums by the difference.
proof fn lemma_sums_update(slots: Seq<Second>, i: int, s: Second, from: int)
    requires
        0 <= i < slots.len(),
    ensures
        acks_since(slots.update(i, s), from) == acks_since(slots, from) - (if slots[i].ts >= from {
            slots[i].ack
        } else {
            0
        }) + (if s.ts >= from {
            s.ack
        } else {
            0
        }),
        losses_since(slots.update(i, s), from) == losses_since(slots, from) - (if slots[i].ts
            >= from {
            slots[i].loss
        } else {
            0
        }) + (if s.ts >= from {
            s.loss
        } else {
            0
        }),
    decreases slots.len(),
{
    if i == slots.len() - 1 {
        assert(slots.update(i, s).drop_last() =~= slots.drop_last());
    } else {
        assert(slots.update(i, s).drop_last() =~= slots.drop_last().update(i, s));
        lemma_sums_update(slots.drop_last(), i, s, from);
    }
}

/// No entry that counts is more than the sum.
proof fn lemma_sums_bound(slots: Seq<Second>, i: int, from: int)
    requires
        0 <= i < slots.len(),
    ensures
        slots[i].ts >= from ==> slots[i].ack <= acks_since(slots, from),
        slots[i].ts >= from ==> slots[i].loss <= losses_since(slots, from),
    decreases slots.len(),
{
    if i < slots.len() - 1 {
        lemma_sums_bound(slots.drop_last(), i, from);
    }
}

/// The ACK rate is never below 0.8 and never above 1, so the target rate is exceeded by a
/// quarter at most.
pub proof fn law_ack_rate_bounds(acks: nat, losses: nat)
    requires
        acks + losses <= u64::MAX,
    ensures
        ack_rate(acks, losses).wf(),
{
}

/// Packets that were acknowledged and lost in one second.
pub ghost struct PacketEvent {
    pub ts: nat,
    pub ack: nat,
    pub loss: nat,
}

/// The history after some events, in order.
pub open spec fn history(events: Seq<PacketEvent>) -> Seq<Second>
    decreases events.len(),
{
    if events.len() == 0 {
        blank_history()
    } else {
        let e = events.last();
        recorded(history(events.drop_last()), e.ts, e.ack, e.loss)
    }
}

/// Whether time does not run backwards.
pub open spec fn in_order(events: Seq<PacketEvent>) -> bool {
    forall|i: int, j: int| 0 <= i <= j < events.len() ==> events[i].ts <= events[j].ts
}

/// The packets that were acknowledged and lost in the seconds from `from` to `to`.
pub open spec fn packets_between(events: Seq<PacketEvent>, from: int, to: int) -> (nat, nat)
    decreases events.len(),
{
    if events.len() == 0 {
        (0, 0)
    } else {
        let (acks, losses) = packets_between(events.drop_last(), from, to);
        let e = events.last();
        if from <= e.ts <= to {
            (acks + e.ack, losses + e.loss)
        } else {
            (acks, losses)
        }
    }
}

/// Whether `s` is what the place `i` holds after `events`: the last second there that saw
/// packets, with all of them.
spec fn is_entry(events: Seq<PacketEvent>, i: int, s: Second) -> bool {
    &&& s.ts % 5 == i ==> (s.ack, s.loss) == packets_between(events, s.ts as int, s.ts as int)
    &&& s.ts % 5 != i ==> s.ack == 0 && s.loss == 0
    &&& s.ts <= if events.len() == 0 {
        0
    } else {
        events.last().ts
    }
    &&& forall|k: int|
        0 <= k < events.len() && (#[trigger] events[k]).ts % 5 == i ==> {
            &&& events[k].ts <= s.ts
            &&& s.ts % 5 == i
        }
}

proof fn lemma_none_between(events: Seq<PacketEvent>, from: int, to: int)
    requires
        forall|k: int| 0 <= k < events.len() ==> !(from <= (#[trigger] events[k]).ts <= to),
    ensures
        packets_between(events, from, to) == (0nat, 0nat),
    decreases events.len(),
{
    if events.len() > 0 {
        let before = events.drop_last();
        assert forall|k: int| 0 <= k < before.len() implies !(from <= (#[trigger] before[k]).ts
            <= to) by {
            assert(before[k] == events[k]);
        }
        lemma_none_between(before, from, to);
        assert(!(from <= events[events.len() - 1].ts <= to));
    }
}

proof fn lemma_between_split(events: Seq<PacketEvent>, from: int, mid: int, to: int)
    requires
        from <= mid + 1,
        mid <= to,
    ensures
        packets_between(events, from, to).0 == packets_between(events, from, mid).0
            + packets_between(events, mid + 1, to).0,
        packets_between(events, from, to).1 == packets_between(events, from, mid).1
            + packets_between(events, mid + 1, to).1,
    decreases events.len(),
{
    if events.len() > 0 {
        lemma_between_split(events.drop_last(), from, mid, to);
    }
}

proof fn lemma_entries(events: Seq<PacketEvent>)
    requires
        in_order(events),
    ensures
        history(events).len() == 5,
        forall|i: int| 0 <= i < 5 ==> is_entry(events, i, #[trigger] history(events)[i]),
    decreases events.len(),
{
    if events.len() > 0 {
        let before = events.drop_last();
        let e = events.last();
        lemma_entries(before);
        let slots = history(before);
        assert forall|i: int| 0 <= i < 5 implies is_entry(
            events,
            i,
            #[trigger] history(events)[i],
        ) by {
            let s = history(events)[i];
            let old_s = slots[i];
            assert(is_entry(before, i, old_s));
            if before.len() > 0 {
                assert(events[before.len() - 1].ts <= events[events.len() - 1].ts);
            }
            assert(old_s.ts <= e.ts);
            assert forall|k: int|
                0 <= k < events.len() && (#[trigger] events[k]).ts % 5 == i implies events[k].ts
                <= s.ts && s.ts % 5 == i by {
                if k < before.len() {
                    assert(before[k] == events[k]);
                }
                assert(events[k].ts <= events[events.len() - 1].ts);
            }
            if i == e.ts % 5 && old_s.ts != e.ts {
                assert forall|k: int| 0 <= k < before.len() implies !(e.ts as int <= (
                #[trigger] before[k]).ts <= e.ts as int) by {}
                lemma_none_between(before, e.ts as int, e.ts as int);
            }
        }
    }
}

/// The acknowledged packets in `s`, if it counts.
spec fn acks_in(s: Second, from: int) -> nat {
    if s.ts >= from {
        s.ack
    } else {
        0
    }
}

/// The lost packets in `s`, if it counts.
spec fn losses_in(s: Second, from: int) -> nat {
    if s.ts >= from {
        s.loss
    } else {
        0
    }
}

/// What counts in the place of the second `t`, one of the last five, is what `t` saw.
proof fn lemma_entry_counts(events: Seq<PacketEvent>, t: int)
    requires
        in_order(events),
        events.len() > 0,
        events.last().ts - 4 <= t <= events.last().ts,
    ensures
        ({
            let s = history(events)[t % 5];
            let (acks, losses) = packets_between(events, t, t);
            &&& history(events).len() == 5
            &&& acks == acks_in(s, events.last().ts - 5)
            &&& losses == losses_in(s, events.last().ts - 5)
        }),
{
    lemma_entries(events);
    let i = t % 5;
    let s = history(events)[i];
    let now = events.last().ts;
    assert(is_entry(events, i, s));
    assert(now % 5 == i ==> now <= s.ts) by {
        assert(events[events.len() - 1].ts == now);
    }
    if s.ts % 5 != i || s.ts != t {
        assert forall|k: int| 0 <= k < events.len() implies !(t <= (#[trigger] events[k]).ts
            <= t) by {
            if events[k].ts == t {
                assert(events[k].ts % 5 == i);
            }
        }
        lemma_none_between(events, t, t);
    }
}

proof fn lemma_five(slots: Seq<Second>, from: int)
    requires
        slots.len() == 5,
    ensures
        acks_since(slots, from) == acks_in(slots[0], from) + acks_in(slots[1], from) + acks_in(
            slots[2],
            from,
        ) + acks_in(slots[3], from) + acks_in(slots[4], from),
        losses_since(slots, from) == losses_in(slots[0], from) + losses_in(slots[1], from)
            + losses_in(slots[2], from) + losses_in(slots[3], from) + losses_in(slots[4], from),
{
    let s4 = slots.drop_last();
    let s3 = s4.drop_last();
    let s2 = s3.drop_last();
    let s1 = s2.drop_last();
    assert(s1.drop_last().len() == 0);
    assert(acks_since(s1.drop_last(), from) == 0 && losses_since(s1.drop_last(), from) == 0);
    assert(s1.last() == slots[0]);
    assert(s2.last() == slots[1]);
    assert(s3.last() == slots[2]);
    assert(s4.last() == slots[3]);
    assert(acks_since(s1, from) == acks_in(slots[0], from));
    assert(losses_since(s1, from) == losses_in(slots[0], from));
    assert(acks_since(s2, from) == acks_since(s1, from) + acks_in(slots[1], from));
    assert(losses_since(s2, from) == losses_since(s1, from) + losses_in(slots[1], from));
    assert(acks_since(s3, from) == acks_since(s2, from) + acks_in(slots[2], from));
    assert(losses_since(s3, from) == losses_since(s2, from) + losses_in(slots[2], from));
    assert(acks_since(s4, from) == acks_since(s3, from) + acks_in(slots[3], from));
    assert(losses_since(s4, from) == losses_since(s3, from) + losses_in(slots[3], from));
}

/// As long as time does not run backwards, what counts for the ACK rate is what was
/// acknowledged and lost in the last five seconds, all of it and nothing else.
pub proof fn law_history_is_last_seconds(events: Seq<PacketEvent>)
    requires
        in_order(events),
        events.len() > 0,
    ensures
        ({
            let now = events.last().ts;
            let counted = packets_between(events, now - 4, now as int);
            &&& acks_since(history(events), now - SLOT_COUNT as int) == counted.0
            &&& losses_since(history(events), now - SLOT_COUNT as int) == counted.1
            &&& shown_rate(history(events), now) == ack_rate(counted.0, counted.1)
        }),
{
    let now = events.last().ts as int;
    let slots = history(events);
    lemma_between_split(events, now - 4, now - 4, now);
    lemma_between_split(events, now - 3, now - 3, now);
    lemma_between_split(events, now - 2, now - 2, now);
    lemma_between_split(events, now - 1, now - 1, now);
    lemma_entry_counts(events, now - 4);
    lemma_entry_counts(events, now - 3);
    lemma_entry_counts(events, now - 2);
    lemma_entry_counts(events, now - 1);
    lemma_entry_counts(events, now);
    lemma_five(slots, now - 5);
    let r = now % 5;
    assert(r == 0 || r == 1 || r == 2 || r == 3 || r == 4);
    if r == 0 {
        assert((now - 4) % 5 == 1 && (now - 3) % 5 == 2 && (now - 2) % 5 == 3 && (now - 1) % 5 == 4);
    } else if r == 1 {
        assert((now - 4) % 5 == 2 && (now - 3) % 5 == 3 && (now - 2) % 5 == 4 && (now - 1) % 5 == 0);
    } else if r == 2 {
        assert((now - 4) % 5 == 3 && (now - 3) % 5 == 4 && (now - 2) % 5 == 0 && (now - 1) % 5 == 1);
    } else if r == 3 {
        assert((now - 4) % 5 == 4 && (now - 3) % 5 == 0 && (now - 2) % 5 == 1 && (now - 1) % 5 == 2);
    } else {
        assert((now - 4) % 5 == 0 && (now - 3) % 5 == 1 && (now - 2) % 5 == 2 && (now - 1) % 5 == 3);
    }
}

/// The packets that Brutal counts of what happened on the path, starting in the state `b`.
pub open spec fn counted_events(b: BrutalState, events: Seq<PathEvent>) -> Seq<PacketEvent>
    decreases events.len(),
{
    if events.len() == 0 {
        Seq::empty()
    } else {
        let before = counted_events(b, events.drop_last());
        match events.last() {
            PathEvent::Acked { ts, .. } => before.push(PacketEvent { ts, ack: 1, loss: 0 }),
            PathEvent::Lost { ts, bytes } => before.push(
                PacketEvent { ts, ack: 0, loss: b.on_all(events.drop_last()).packets(bytes) },
            ),
            _ => before,
        }
    }
}

proof fn lemma_state_is_history(mtu: u16, events: Seq<PathEvent>)
    ensures
        ({
            let b = BrutalState::fresh(mtu);
            let packets = counted_events(b, events);
            let t = b.on_all(events);
            &&& t.slots == history(packets)
            &&& t.ack_rate == if packets.len() == 0 {
                AckRate { num: 1, den: 1 }
            } else {
                shown_rate(history(packets), packets.last().ts)
            }
        }),
    decreases events.len(),
{
    if events.len() > 0 {
        lemma_state_is_history(mtu, events.drop_last());
        let before = counted_events(BrutalState::fresh(mtu), events.drop_last());
        let after = counted_events(BrutalState::fresh(mtu), events);
        if events.last() is Acked || events.last() is Lost {
            assert(after.drop_last() =~= before);
        }
    }
}

/// The ACK rate of a controller is that of the last five seconds: after all that happened on the
/// path since it was new, with time not running backwards, it is the rate of the packets that
/// were acknowledged and lost in the second of the last of them and the four before, all of them
/// and no others. Before the first one it is 1.
pub proof fn law_ack_rate_is_of_last_seconds(mtu: u16, events: Seq<PathEvent>)
    requires
        in_order(counted_events(BrutalState::fresh(mtu), events)),
    ensures
        ({
            let b = BrutalState::fresh(mtu);
            let packets = counted_events(b, events);
            let rate = b.on_all(events).ack_rate;
            if packets.len() == 0 {
                rate == (AckRate { num: 1, den: 1 })
            } else {
                let now = packets.last().ts;
                let (acks, losses) = packets_between(packets, now - 4, now as int);
                rate == ack_rate(acks, losses)
            }
        }),
{
    let packets = counted_events(BrutalState::fresh(mtu), events);
    lemma_state_is_history(mtu, events);
    if packets.len() > 0 {
        law_history_is_last_seconds(packets);
    }
}

/// A second pointer to the same counter, by `Arc::clone`.
#[verifier::external_body]
fn share(rate: &Arc<AtomicU64>) -> (r: Arc<AtomicU64>)
    ensures
        r == *rate,
{
    rate.clone()
}

/// The Brutal congestion controller of one connection.
pub struct Brutal {
    /// Shared target send rate in bytes/sec. It can be changed at any time, as when it is
    /// clamped to the server's advertised rate after the handshake.
    rate: Arc<AtomicU64>,
    mtu: u16,
    srtt: TimeSpan,
    ack_rate: AckRate,
    slots: [Slot; 5],
}

impl View for Brutal {
    type V = BrutalState;

    closed spec fn view(&self) -> BrutalState {
        BrutalState {
            mtu: self.mtu,
            srtt: self.srtt,
            ack_rate: self.ack_rate,
            slots: self.slots@.map_values(|s: Slot| s@),
        }
    }
}

impl Clone for Brutal {
    fn clone(&self) -> (r: Self)
        ensures
            r@ == self@,
            r.target() == self.target(),
    {
        Brutal {
            rate: share(&self.rate),
            mtu: self.mtu,
            srtt: self.srtt,
            ack_rate: self.ack_rate,
            slots: self.slots,
        }
    }
}

impl Brutal {
    /// The shared target send rate.
    pub closed spec fn target(self) -> Arc<AtomicU64> {
        self.rate
    }

    /// A controller that sends at the shared rate `rate`, with nothing seen yet.
    pub fn new(rate: Arc<AtomicU64>, mtu: u16) -> (b: Brutal)
        ensures
            b.target() == rate,
            b@.wf(),
            b@ == BrutalState::fresh(mtu),
    {
        let b = Brutal {
            rate,
            mtu,
            srtt: TimeSpan { secs: 0, nanos: 0 },
            ack_rate: AckRate { num: 1, den: 1 },
            slots: [Slot { ts: 0, ack: 0, loss: 0 };5],
        };
        assert(b@.slots =~= blank_history());
        b
    }

    /// The shared target send rate, in bytes/sec.
    pub fn rate(&self) -> (r: &Arc<AtomicU64>)
        ensures
            *r == self.target(),
    {
        &self.rate
    }

    /// The smoothed round-trip time; zero before the first measurement.
    pub fn srtt(&self) -> (t: TimeSpan)
        ensures
            t == self@.srtt,
    {
        self.srtt
    }

    /// The share of packets that were acknowledged of late.
    pub fn ack_rate(&self) -> (r: AckRate)
        ensures
            r == self@.ack_rate,
    {
        self.ack_rate
    }

    /// The acknowledged and the lost packets that count in the second `ts`.
    fn counted(&self, ts: u64) -> (r: (u128, u128))
        ensures
            r.0 == acks_since(self@.slots, ts - SLOT_COUNT as int),
            r.1 == losses_since(self@.slots, ts - SLOT_COUNT as int),
            r.0 <= 5 * u64::MAX,
            r.1 <= 5 * u64::MAX,
    {
        let mut acks: u128 = 0;
        let mut losses: u128 = 0;
        let mut i: usize = 0;
        let ghost slots = self@.slots;
        while i < SLOT_COUNT
            invariant
                i <= SLOT_COUNT,
                slots == self@.slots,
                slots.len() == SLOT_COUNT,
                acks == acks_since(slots.take(i as int), ts - SLOT_COUNT as int),
                losses == losses_since(slots.take(i as int), ts - SLOT_COUNT as int),
                acks <= i * u64::MAX,
                losses <= i * u64::MAX,
            decreases SLOT_COUNT - i,
        {
            let s: Slot = self.slots[i];
            assert(slots.take(i + 1).drop_last() =~= slots.take(i as int));
            assert(slots.take(i + 1).last() == s@);
            if ts <= SLOT_COUNT as u64 || s.ts >= ts - SLOT_COUNT as u64 {
                acks += s.ack as u128;
                losses += s.loss as u128;
            }
            i += 1;
        }
        assert(slots.take(i as int) =~= slots);
        (acks, losses)
    }

    /// Whether the counts stay within 64 bits with `ack` acknowledged and `loss` lost packets
    /// in the second `ts`.
    pub fn has_room(&self, ts: u64, ack: u64, loss: u64) -> (b: bool)
        requires
            self@.wf(),
        ensures
            b == self@.has_room(ts as nat, ack as nat, loss as nat),
    {
        let i: usize = (ts % SLOT_COUNT as u64) as usize;
        let s: Slot = self.slots[i];
        let (acks, losses) = self.counted(ts);
        let ghost from = ts - SLOT_COUNT as int;
        let ghost old_slots = self@.slots;
        let ghost new_slots = recorded(old_slots, ts as nat, ack as nat, loss as nat);
        proof {
            lemma_sums_update(old_slots, i as int, new_slots[i as int], from);
            lemma_sums_bound(old_slots, i as int, from);
        }
        let kept_before: u128 = if ts <= SLOT_COUNT as u64 || s.ts >= ts - SLOT_COUNT as u64 {
            s.ack as u128 + s.loss as u128
        } else {
            0
        };
        let kept_after: u128 = if s.ts == ts {
            s.ack as u128 + s.loss as u128
        } else {
            0
        };
        assert(old_slots[i as int] == s@);
        acks + losses - kept_before + kept_after + ack as u128 + loss as u128 <= u64::MAX as u128
    }

    /// Enter `ack` acknowledged and `loss` lost packets in the second `ts`.
    pub fn record(&mut self, ts: u64, ack: u64, loss: u64)
        requires
            old(self)@.wf(),
            old(self)@.has_room(ts as nat, ack as nat, loss as nat),
        ensures
            final(self)@.wf(),
            final(self).target() == old(self).target(),
            final(self)@ == old(self)@.after(ts as nat, ack as nat, loss as nat),
    {
        let i: usize = (ts % SLOT_COUNT as u64) as usize;
        let s: Slot = self.slots[i];
        let ghost from = ts - SLOT_COUNT as int;
        let ghost new_slots = recorded(self@.slots, ts as nat, ack as nat, loss as nat);
        proof {
            lemma_sums_update(self@.slots, i as int, new_slots[i as int], from);
            lemma_sums_bound(new_slots, i as int, from);
        }
        if s.ts == ts {
            self.slots[i] = Slot { ts, ack: s.ack + ack, loss: s.loss + loss };
        } else {
            self.slots[i] = Slot { ts, ack, loss };
        }
        assert(self@.slots =~= new_slots);
        self.update_ack_rate(ts);
    }

    fn update_ack_rate(&mut self, ts: u64)
        requires
            samples(old(self)@.slots, ts as nat) <= u64::MAX,
        ensures
            final(self).target() == old(self).target(),
            final(self)@ == (BrutalState {
                ack_rate: shown_rate(old(self)@.slots, ts as nat),
                ..old(self)@
            }),
            final(self)@.ack_rate.wf(),
    {
        let (acks, losses) = self.counted(ts);
        let total: u128 = acks + losses;
        self.ack_rate = if total < MIN_SAMPLE_COUNT as u128 {
            AckRate { num: 1, den: 1 }
        } else if 5 * acks < 4 * total {
            AckRate { num: 4, den: 5 }
        } else {
            AckRate { num: acks as u64, den: total as u64 }
        };
    }

    /// A packet was acknowledged in the second `ts`; the smoothed round-trip time is now
    /// `srtt`.
    pub fn on_ack(&mut self, ts: u64, srtt: TimeSpan)
        requires
            old(self)@.wf(),
            old(self)@.has_room(ts as nat, 1, 0),
        ensures
            final(self)@.wf(),
            final(self).target() == old(self).target(),
            final(self)@ == old(self)@.on(PathEvent::Acked { ts: ts as nat, srtt }),
            final(self)@.srtt == srtt,
    {
        self.srtt = srtt;
        self.record(ts, 1, 0);
    }

    /// How many packets a loss of `lost_bytes` bytes is counted as.
    pub fn lost_packets(&self, lost_bytes: u64) -> (n: u64)
        ensures
            n == self@.packets(lost_bytes as nat),
    {
        let size: u64 = if self.mtu == 0 {
            1
        } else {
            self.mtu as u64
        };
        let n: u64 = lost_bytes / size;
        proof {
            if lost_bytes < size {
                vstd::arithmetic::div_mod::lemma_basic_div(lost_bytes as int, size as int);
            } else {
                vstd::arithmetic::div_mod::lemma_div_non_zero(lost_bytes as int, size as int);
            }
        }
        if n == 0 {
            1
        } else {
            n
        }
    }

    /// `lost_bytes` bytes were found lost in the second `ts`. They count for the ACK rate, but
    /// never shrink the window ([`law_loss_never_shrinks_window`]).
    pub fn on_congestion_event(&mut self, ts: u64, lost_bytes: u64)
        requires
            old(self)@.wf(),
            old(self)@.has_room(ts as nat, 0, old(self)@.packets(lost_bytes as nat)),
        ensures
            final(self)@.wf(),
            final(self).target() == old(self).target(),
            final(self)@ == old(self)@.on(
                PathEvent::Lost { ts: ts as nat, bytes: lost_bytes as nat },
            ),
    {
        let lost: u64 = self.lost_packets(lost_bytes);
        self.record(ts, 0, lost);
    }

    /// Packets can now hold `new_mtu` bytes.
    pub fn on_mtu_update(&mut self, new_mtu: u16)
        ensures
            final(self).target() == old(self).target(),
            final(self)@ == old(self)@.on(PathEvent::MtuChanged { mtu: new_mtu }),
    {
        self.mtu = new_mtu;
    }

    /// The window where `cwnd` bytes (`bps * srtt / ack_rate`, which callers compute in floating
    /// point) keep up the target rate. As long
    /// as no round trip was measured there is no such number, and `cwnd` is not looked at.
    pub fn window(&self, cwnd: u64) -> (w: u64)
        ensures
            w == self@.window(cwnd as nat),
    {
        let floor: u64 = self.initial_window();
        if (self.srtt.secs == 0 && self.srtt.nanos == 0) || cwnd < floor {
            floor
        } else {
            cwnd
        }
    }

    /// The window at the start of a connection.
    pub fn initial_window(&self) -> (w: u64)
        ensures
            w == self@.floor(),
    {
        let two: u64 = self.mtu as u64 * 2;
        if two >= MIN_WINDOW {
            two
        } else {
            MIN_WINDOW
        }
    }
}

/// Factory that builds a fresh [`Brutal`] controller per connection, all
/// sharing the same live rate.
pub struct BrutalFactory {
    /// Shared target send rate in bytes/sec.
    pub rate: Arc<AtomicU64>,
}

impl BrutalFactory {
    /// A controller for a new connection.
    pub fn build(&self, current_mtu: u16) -> (b: Brutal)
        ensures
            b.target() == self.rate,
            b@.wf(),
            b@ == BrutalState::fresh(current_mtu),
    {
        Brutal::new(share(&self.rate), current_mtu)
    }
}

/// Upload congestion control: a Brutal rate plus a flag that hands the window to BBR.
#[derive(Debug, Clone, Copy, PartialEq, Eq, Structural)]
pub struct UploadControl {
    /// Brutal's target send rate in bytes/sec.
    pub rate: u64,
    /// Whether BBR sets the window in Brutal's place.
    pub use_bbr: bool,
}

impl UploadControl {
    /// The control after the handshake.
    pub open spec fn settled(self, auth: AuthResponse) -> UploadControl {
        if auth.rx_auto {
            UploadControl { use_bbr: true, ..self }
        } else if 0 < auth.server_rx < self.rate {
            UploadControl { rate: auth.server_rx, ..self }
        } else {
            self
        }
    }

    /// What a configured upload cap of `tx_bps` bytes/sec asks for at first. Without a cap
    /// there is only BBR.
    pub fn configured(tx_bps: u64) -> (c: Option<UploadControl>)
        ensures
            c == if tx_bps > 0 {
                Some(UploadControl { rate: tx_bps, use_bbr: false })
            } else {
                None
            },
    {
        if tx_bps > 0 {
            Some(UploadControl { rate: tx_bps, use_bbr: false })
        } else {
            None
        }
    }

    /// Come to terms with what the server said during the handshake. If it asked for the
    /// client's own bandwidth detection, BBR takes over; a rate that it stated is not exceeded;
    /// if it stated none, the server is unlimited.
    pub fn reconciled(self, auth: &AuthResponse) -> (c: UploadControl)
        ensures
            c == self.settled(*auth),
    {
        if auth.rx_auto {
            UploadControl { rate: self.rate, use_bbr: true }
        } else if auth.server_rx > 0 && auth.server_rx < self.rate {
            UploadControl { rate: auth.server_rx, use_bbr: self.use_bbr }
        } else {
            self
        }
    }
}

/// After the handshake Brutal sends at the lower of the configured rate and the one that the
/// server stated in its `Hysteria-CC-RX` header; 0 there, or no such header, leaves the
/// configured rate; and only `auto` hands the upload to BBR.
pub proof fn law_upload_follows_server(c: UploadControl, udp: Option<Seq<u8>>, rate: u64)
    requires
        !c.use_bbr,
    ensures
        ({
            let stated = c.settled(auth::auth_outcome(udp, Some(auth::rate_text(rate))));
            &&& stated.rate == if 0 < rate < c.rate {
                rate
            } else {
                c.rate
            }
            &&& !stated.use_bbr
            &&& c.settled(auth::auth_outcome(udp, None)) == c
            &&& c.settled(auth::auth_outcome(udp, Some(auth::text_auto()))).use_bbr
        }),
{
    auth::law_stated_rate_is_read(udp, rate);
}

/// Brutal and BBR side by side. `B` is what stands for BBR.
pub ghost struct SideBySide<B> {
    pub brutal: BrutalState,
    pub bbr: B,
}

/// The window that governs, of the two.
pub open spec fn governing(use_bbr: bool, brutal: nat, bbr: nat) -> nat {
    if use_bbr {
        bbr
    } else {
        brutal
    }
}

impl<B> SideBySide<B> {
    /// The state after something happened on the path, of which BBR made `bbr`.
    pub open spec fn on(self, event: PathEvent, bbr: B) -> SideBySide<B> {
        SideBySide { brutal: self.brutal.on(event), bbr }
    }

    /// The state after all that happened on the path, in order, each with what BBR made of it.
    pub open spec fn on_all(self, events: Seq<(PathEvent, B)>) -> SideBySide<B>
        decreases events.len(),
    {
        if events.len() == 0 {
            self
        } else {
            self.on_all(events.drop_last()).on(events.last().0, events.last().1)
        }
    }
}

/// Whatever happened on the path and whoever governed meanwhile, each of the two is where it
/// would be alone: the window is the one of Brutal after the same events, or what BBR makes of
/// them, as the flag says now.
pub proof fn law_switch_is_seamless<B>(
    s: SideBySide<B>,
    events: Seq<(PathEvent, B)>,
    use_bbr: bool,
    cwnd: nat,
    bbr_window: nat,
)
    ensures
        ({
            let t = s.on_all(events);
            let alone = s.brutal.on_all(events.map_values(|e: (PathEvent, B)| e.0));
            &&& t.brutal == alone
            &&& t.bbr == if events.len() == 0 {
                s.bbr
            } else {
                events.last().1
            }
            &&& governing(use_bbr, t.brutal.window(cwnd), bbr_window) == if use_bbr {
                bbr_window
            } else {
                alone.window(cwnd)
            }
        }),
    decreases events.len(),
{
    if events.len() > 0 {
        law_switch_is_seamless(s, events.drop_last(), use_bbr, cwnd, bbr_window);
        let plain = events.map_values(|e: (PathEvent, B)| e.0);
        assert(plain.drop_last() =~= events.drop_last().map_values(|e: (PathEvent, B)| e.0));
    }
}

/// A controller that runs both Brutal and BBR in parallel and lets either one govern the send
/// window. Both see every path event so that the inactive one stays warm and the switch is
/// seamless: each method enters the event for Brutal and hands out BBR, for the same event to be
/// passed on.
pub struct SwitchableController<B> {
    brutal: Brutal,
    bbr: B,
}

impl<B> View for SwitchableController<B> {
    type V = SideBySide<B>;

    closed spec fn view(&self) -> SideBySide<B> {
        SideBySide { brutal: self.brutal@, bbr: self.bbr }
    }
}

impl<B> SwitchableController<B> {
    /// The shared target send rate that drives Brutal.
    pub closed spec fn target(self) -> Arc<AtomicU64> {
        self.brutal.target()
    }

    /// The two side by side.
    pub fn new(brutal: Brutal, bbr: B) -> (c: SwitchableController<B>)
        ensures
            c@ == (SideBySide { brutal: brutal@, bbr }),
            c.target() == brutal.target(),
    {
        SwitchableController { brutal, bbr }
    }

    pub fn brutal(&self) -> (b: &Brutal)
        ensures
            b@ == self@.brutal,
            b.target() == self.target(),
    {
        &self.brutal
    }

    pub fn bbr(&self) -> (b: &B)
        ensures
            *b == self@.bbr,
    {
        &self.bbr
    }

    /// Packets were sent.
    pub fn on_sent(&mut self) -> (bbr: &mut B)
        ensures
            *bbr == old(self)@.bbr,
            final(self).target() == old(self).target(),
            final(self)@ == old(self)@.on(PathEvent::Sent, *final(bbr)),
    {
        &mut self.bbr
    }

    /// A packet was acknowledged in the second `ts`; the smoothed round-trip time is now
    /// `srtt`.
    pub fn on_ack(&mut self, ts: u64, srtt: TimeSpan) -> (bbr: &mut B)
        requires
            old(self)@.brutal.wf(),
            old(self)@.brutal.has_room(ts as nat, 1, 0),
        ensures
            *bbr == old(self)@.bbr,
            final(self).target() == old(self).target(),
            final(self)@ == old(self)@.on(
                PathEvent::Acked { ts: ts as nat, srtt },
                *final(bbr),
            ),
            final(self)@.brutal.wf(),
    {
        self.brutal.on_ack(ts, srtt);
        &mut self.bbr
    }

    /// A batch of acknowledgements is complete.
    pub fn on_end_acks(&mut self) -> (bbr: &mut B)
        ensures
            *bbr == old(self)@.bbr,
            final(self).target() == old(self).target(),
            final(self)@ == old(self)@.on(PathEvent::AcksEnded, *final(bbr)),
    {
        &mut self.bbr
    }

    /// `lost_bytes` bytes were found lost in the second `ts`.
    pub fn on_congestion_event(&mut self, ts: u64, lost_bytes: u64) -> (bbr: &mut B)
        requires
            old(self)@.brutal.wf(),
            old(self)@.brutal.has_room(
                ts as nat,
                0,
                old(self)@.brutal.packets(lost_bytes as nat),
            ),
        ensures
            *bbr == old(self)@.bbr,
            final(self).target() == old(self).target(),
            final(self)@ == old(self)@.on(
                PathEvent::Lost { ts: ts as nat, bytes: lost_bytes as nat },
                *final(bbr),
            ),
            final(self)@.brutal.wf(),
    {
        self.brutal.on_congestion_event(ts, lost_bytes);
        &mut self.bbr
    }

    /// Packets can now hold `new_mtu` bytes.
    pub fn on_mtu_update(&mut self, new_mtu: u16) -> (bbr: &mut B)
        ensures
            *bbr == old(self)@.bbr,
            final(self).target() == old(self).target(),
            final(self)@ == old(self)@.on(PathEvent::MtuChanged { mtu: new_mtu }, *final(bbr)),
    {
        self.brutal.on_mtu_update(new_mtu);
        &mut self.bbr
    }

    /// The window, where `cwnd` bytes keep up Brutal's target rate and BBR's window is `bbr`.
    pub fn window(&self, use_bbr: bool, cwnd: u64, bbr: u64) -> (w: u64)
        ensures
            w == governing(use_bbr, self@.brutal.window(cwnd as nat), bbr as nat),
    {
        if use_bbr {
            bbr
        } else {
            self.brutal.window(cwnd)
        }
    }

    /// The window at the start of a connection, where BBR's is `bbr`.
    pub fn initial_window(&self, use_bbr: bool, bbr: u64) -> (w: u64)
        ensures
            w == governing(use_bbr, self@.brutal.floor(), bbr as nat),
    {
        if use_bbr {
            bbr
        } else {
            self.brutal.initial_window()
        }
    }
}

/// Once packets were acknowledged or lost in a second, the state is that of this second, and
/// nothing else that happens changes that.
pub proof fn law_state_is_of_last_second(b: BrutalState, ts: nat, srtt: TimeSpan, bytes: nat, mtu: u16)
    requires
        b.wf(),
    ensures
        b.on(PathEvent::Acked { ts, srtt }).is_at(ts),
        b.on(PathEvent::Lost { ts, bytes }).is_at(ts),
        b.is_at(ts) ==> b.on(PathEvent::Sent).is_at(ts) && b.on(PathEvent::AcksEnded).is_at(ts)
            && b.on(PathEvent::MtuChanged { mtu }).is_at(ts),
{
}

/// A loss never raises the ACK rate, as long as it falls in the second that packets were last
/// recorded in. (In a later second, older losses cease to count.)
pub proof fn law_loss_never_raises_ack_rate(b: BrutalState, ts: nat, bytes: nat)
    requires
        b.wf(),
        b.has_room(ts, 0, b.packets(bytes)),
        b.is_at(ts),
    ensures
        ({
            let after = b.after(ts, 0, b.packets(bytes));
            after.ack_rate.num * b.ack_rate.den <= b.ack_rate.num * after.ack_rate.den
        }),
{
    let i = (ts % 5) as int;
    let from = ts - SLOT_COUNT as int;
    let lost = b.packets(bytes);
    let slots = recorded(b.slots, ts, 0, lost);
    lemma_sums_update(b.slots, i, slots[i], from);
    let acks = acks_since(b.slots, from);
    let losses = losses_since(b.slots, from);
    assert(acks_since(slots, from) == acks);
    assert(losses_since(slots, from) == losses + lost);
    let r = ack_rate(acks, losses);
    let t = ack_rate(acks, losses + lost);
    assert(b.ack_rate == r && b.after(ts, 0, lost).ack_rate == t);
    if acks + losses < MIN_SAMPLE_COUNT {
        assert(r == (AckRate { num: 1, den: 1 }));
        assert(t.num * r.den <= r.num * t.den) by (nonlinear_arith)
            requires
                t.num <= t.den,
                r.num == 1 && r.den == 1,
        ;
    } else if 5 * acks >= 4 * (acks + losses + lost) {
        assert(r.num == acks && r.den == acks + losses);
        assert(t.num == acks && t.den == acks + losses + lost);
        assert(t.num * r.den <= r.num * t.den) by (nonlinear_arith)
            requires
                t.num == r.num,
                r.den <= t.den,
        ;
    } else {
        assert(t == (AckRate { num: 4, den: 5 }));
        assert(t.num * r.den <= r.num * t.den) by (nonlinear_arith)
            requires
                t.num == 4 && t.den == 5,
                4 * r.den <= 5 * r.num,
        ;
    }
}

/// A loss never shrinks the window: at an unchanged target rate, what Brutal may have in flight
/// after a loss is no less than before, as long as the loss falls in the second that packets
/// were last recorded in. This is said of the exact quotient [`BrutalState::cwnd`]; callers
/// compute it in floating point.
pub proof fn law_loss_never_shrinks_window(b: BrutalState, ts: nat, bytes: nat, rate: nat)
    requires
        b.wf(),
        b.has_room(ts, 0, b.packets(bytes)),
        b.is_at(ts),
    ensures
        ({
            let after = b.on(PathEvent::Lost { ts, bytes });
            &&& after.wf()
            &&& after.is_at(ts)
            &&& after.floor() == b.floor()
            &&& after.srtt == b.srtt
            &&& after.cwnd(rate) >= b.cwnd(rate)
            &&& after.window(after.cwnd(rate)) >= b.window(b.cwnd(rate))
        }),
{
    let after = b.on(PathEvent::Lost { ts, bytes });
    law_loss_never_raises_ack_rate(b, ts, bytes);
    law_state_is_of_last_second(b, ts, b.srtt, bytes, b.mtu);
    let x = rate * b.srtt.in_nanos();
    let (n, d) = (b.ack_rate.num as nat, b.ack_rate.den as nat);
    let (m, e) = (after.ack_rate.num as nat, after.ack_rate.den as nat);
    lemma_quotient_grows(x, n, d, m, e);
}

/// Dividing by a smaller fraction gives more.
proof fn lemma_quotient_grows(x: nat, n: nat, d: nat, m: nat, e: nat)
    requires
        n > 0,
        m > 0,
        m * d <= n * e,
    ensures
        (x * d) / (1_000_000_000 * n) <= (x * e) / (1_000_000_000 * m),
{
    let big = 1_000_000_000 * n;
    let small = 1_000_000_000 * m;
    let q = (x * d) / big;
    assert(q * big <= x * d) by (nonlinear_arith)
        requires
            big > 0,
            q == (x * d) / big,
    ;
    assert(q * small <= x * e) by (nonlinear_arith)
        requires
            q * (1_000_000_000 * n) <= x * d,
            small == 1_000_000_000 * m,
            m * d <= n * e,
            n > 0,
    {
        assert(q * (1_000_000_000 * n) * m <= x * d * m);
        assert(x * (m * d) <= x * (n * e));
        assert((q * small) * n <= (x * e) * n);
    }
    assert(q <= (x * e) / small) by (nonlinear_arith)
        requires
            small > 0,
            q * small <= x * e,
    ;
}

/// A new controller has seen nothing: no round trip, no packets, nothing lost.
pub proof fn law_fresh_state(mtu: u16)
    ensures
        ({
            let b = BrutalState::fresh(mtu);
            &&& b.mtu == mtu
            &&& b.srtt.secs == 0 && b.srtt.nanos == 0
            &&& b.ack_rate.num == b.ack_rate.den == 1
            &&& b.slots.len() == 5
            &&& forall|i: int|
                0 <= i < 5 ==> (#[trigger] b.slots[i]).ts == 0 && b.slots[i].ack == 0
                    && b.slots[i].loss == 0
        }),
{
}

/// What each event on the path changes of a controller, and what it leaves as it was. An
/// acknowledgement brings the round-trip time up to date, whatever it was before.
pub proof fn law_path_event(b: BrutalState, event: PathEvent)
    ensures
        ({
            let t = b.on(event);
            match event {
                PathEvent::Sent => t == b,
                PathEvent::AcksEnded => t == b,
                PathEvent::Acked { ts, srtt } => {
                    &&& t.srtt == srtt
                    &&& t.mtu == b.mtu
                    &&& t.slots == recorded(b.slots, ts, 1, 0)
                    &&& t.ack_rate == shown_rate(t.slots, ts)
                },
                PathEvent::Lost { ts, bytes } => {
                    &&& t.srtt == b.srtt
                    &&& t.mtu == b.mtu
                    &&& t.slots == recorded(b.slots, ts, 0, b.packets(bytes))
                    &&& t.ack_rate == shown_rate(t.slots, ts)
                },
                PathEvent::MtuChanged { mtu } => {
                    &&& t.mtu == mtu
                    &&& t.srtt == b.srtt
                    &&& t.slots == b.slots
                    &&& t.ack_rate == b.ack_rate
                },
            }
        }),
{
}

/// Packets that are counted for a controller bring its rate up to date, and touch neither the
/// packet size nor the round-trip time.
pub proof fn law_packets_counted(b: BrutalState, ts: nat, ack: nat, loss: nat)
    ensures
        b.after(ts, ack, loss).slots == recorded(b.slots, ts, ack, loss),
        b.after(ts, ack, loss).ack_rate == shown_rate(recorded(b.slots, ts, ack, loss), ts),
        b.after(ts, ack, loss).mtu == b.mtu,
        b.after(ts, ack, loss).srtt == b.srtt,
{
}

/// Events take effect one after the other.
pub proof fn law_path_events_in_order(b: BrutalState, events: Seq<PathEvent>, event: PathEvent)
    ensures
        b.on_all(Seq::empty()) == b,
        b.on_all(events.push(event)) == b.on_all(events).on(event),
{
    assert(events.push(event).drop_last() =~= events);
}

/// After any sequence of events on the path, the smoothed round-trip time is that of the last
/// acknowledgement among them. If there was none it is what it was before: zero for a new
/// controller.
pub proof fn law_srtt_is_of_last_ack(b: BrutalState, mtu: u16, events: Seq<PathEvent>, k: int)
    ensures
        ({
            let none = forall|i: int| 0 <= i < events.len() ==> !((#[trigger] events[i]) is Acked);
            let last = 0 <= k < events.len() && events[k] is Acked && forall|i: int|
                k < i < events.len() ==> !((#[trigger] events[i]) is Acked);
            &&& none ==> b.on_all(events).srtt == b.srtt
            &&& none ==> BrutalState::fresh(mtu).on_all(events).srtt == (TimeSpan {
                secs: 0,
                nanos: 0,
            })
            &&& last ==> b.on_all(events).srtt == events[k]->srtt
            &&& last ==> BrutalState::fresh(mtu).on_all(events).srtt == events[k]->srtt
        }),
    decreases events.len(),
{
    if events.len() > 0 {
        let before = events.drop_last();
        law_srtt_is_of_last_ack(b, mtu, before, k);
        assert(events[events.len() - 1] == events.last());
        assert(forall|i: int| 0 <= i < before.len() ==> #[trigger] before[i] == events[i]);
    }
}

/// After any sequence of events on the path, the packet size is the one that it was last changed
/// to, or the one at the start if it was not changed.
pub proof fn law_mtu_is_of_last_change(b: BrutalState, events: Seq<PathEvent>, k: int)
    ensures
        ({
            let none = forall|i: int|
                0 <= i < events.len() ==> !((#[trigger] events[i]) is MtuChanged);
            let last = 0 <= k < events.len() && events[k] is MtuChanged && forall|i: int|
                k < i < events.len() ==> !((#[trigger] events[i]) is MtuChanged);
            &&& none ==> b.on_all(events).mtu == b.mtu
            &&& last ==> b.on_all(events).mtu == events[k]->mtu
        }),
    decreases events.len(),
{
    if events.len() > 0 {
        let before = events.drop_last();
        law_mtu_is_of_last_change(b, before, k);
        assert(events[events.len() - 1] == events.last());
        assert(forall|i: int| 0 <= i < before.len() ==> #[trigger] before[i] == events[i]);
    }
}

/// A second has its place among five. What is recorded there adds up within the second and
/// replaces what stood there of another; the other places stay.
pub proof fn law_recording(slots: Seq<Second>, ts: nat, ack: nat, loss: nat, i: int)
    requires
        slots.len() == 5,
        0 <= i < 5,
    ensures
        ({
            let r = recorded(slots, ts, ack, loss);
            &&& r.len() == 5
            &&& i != ts % 5 ==> r[i] == slots[i]
            &&& i == ts % 5 ==> {
                &&& r[i].ts == ts
                &&& slots[i].ts == ts ==> r[i].ack == slots[i].ack + ack && r[i].loss
                    == slots[i].loss + loss
                &&& slots[i].ts != ts ==> r[i].ack == ack && r[i].loss == loss
            }
        }),
{
}

/// The sums take in every second from the given one on, and none before.
pub proof fn law_sums(slots: Seq<Second>, s: Second, from: int)
    ensures
        acks_since(Seq::empty(), from) == 0,
        losses_since(Seq::empty(), from) == 0,
        s.ts >= from ==> acks_since(slots.push(s), from) == acks_since(slots, from) + s.ack,
        s.ts >= from ==> losses_since(slots.push(s), from) == losses_since(slots, from) + s.loss,
        s.ts < from ==> acks_since(slots.push(s), from) == acks_since(slots, from),
        s.ts < from ==> losses_since(slots.push(s), from) == losses_since(slots, from),
{
    assert(slots.push(s).drop_last() =~= slots);
}

/// The rate that a history shows is that of the entries which are at most five seconds old, and
/// there is room for more packets exactly as long as those can be counted in 64 bits.
pub proof fn law_shown_rate(b: BrutalState, slots: Seq<Second>, ts: nat, ack: nat, loss: nat)
    ensures
        shown_rate(slots, ts) == ack_rate(acks_since(slots, ts - 5), losses_since(slots, ts - 5)),
        ({
            let r = recorded(b.slots, ts, ack, loss);
            b.has_room(ts, ack, loss) <==> acks_since(r, ts - 5) + losses_since(r, ts - 5)
                <= u64::MAX
        }),
{
}

/// The rate is the share of packets that were acknowledged, or 0.8 if the share is less; with
/// fewer than 50 packets it is 1.
pub proof fn law_ack_rate_is_the_share(acks: nat, losses: nat)
    requires
        acks + losses <= u64::MAX,
    ensures
        ({
            let r = ack_rate(acks, losses);
            let total = acks + losses;
            &&& r.den > 0
            &&& total < 50 ==> r.num == r.den
            &&& total >= 50 && 10 * acks >= 8 * total ==> r.num * total == acks * r.den
            &&& total >= 50 && 10 * acks < 8 * total ==> 10 * r.num == 8 * r.den
        }),
{
    let r = ack_rate(acks, losses);
    let total = acks + losses;
    if total >= 50 && 10 * acks >= 8 * total {
        assert(r.num * total == acks * r.den) by (nonlinear_arith)
            requires
                r.num == acks,
                r.den == total,
        ;
    }
}

/// A loss counts as the number of whole packets in it, and as one if there is none. A packet is
/// taken to have a byte at least.
pub proof fn law_lost_packets(b: BrutalState, bytes: nat)
    ensures
        ({
            let n = b.packets(bytes);
            let size: nat = if b.mtu == 0 {
                1
            } else {
                b.mtu as nat
            };
            &&& n >= 1
            &&& bytes < size ==> n == 1
            &&& bytes >= size ==> n * size <= bytes
            &&& bytes < (n + 1) * size
        }),
{
    let size: nat = if b.mtu == 0 {
        1
    } else {
        b.mtu as nat
    };
    let n = b.packets(bytes);
    if bytes >= size {
        assert(n >= 1 && n * size <= bytes && bytes < (n + 1) * size) by (nonlinear_arith)
            requires
                size > 0,
                bytes >= size,
                n == bytes / size,
        ;
    } else {
        assert((n + 1) * size == 2 * size) by (nonlinear_arith)
            requires
                n == 1,
        ;
    }
}

/// The window is never below two packets, nor below 10240 bytes. Above that it is what keeps up
/// the rate, once a round trip was measured.
pub proof fn law_window(b: BrutalState, cwnd: nat)
    ensures
        b.floor() == 2 * b.mtu || b.floor() == 10_240,
        b.floor() >= 2 * b.mtu,
        b.floor() >= 10_240,
        b.srtt.secs == 0 && b.srtt.nanos == 0 ==> b.window(cwnd) == b.floor(),
        b.srtt.secs > 0 || b.srtt.nanos > 0 ==> {
            &&& b.window(cwnd) >= cwnd
            &&& b.window(cwnd) >= b.floor()
            &&& b.window(cwnd) == cwnd || b.window(cwnd) == b.floor()
        },
{
}

/// What keeps up the rate is as many bytes as are sent within a round trip at the given rate,
/// made up for the share that is lost: the largest number not above `rate * srtt / ack_rate`.
pub proof fn law_bytes_in_flight(b: BrutalState, rate: nat)
    requires
        b.ack_rate.num > 0,
    ensures
        ({
            let srtt = b.srtt.secs as nat * 1_000_000_000 + b.srtt.nanos as nat;
            let sent = rate * srtt * b.ack_rate.den as nat;
            let unit = 1_000_000_000 * b.ack_rate.num as nat;
            b.cwnd(rate) * unit <= sent < (b.cwnd(rate) + 1) * unit
        }),
{
    let srtt = b.srtt.secs as nat * 1_000_000_000 + b.srtt.nanos as nat;
    let sent = rate * srtt * b.ack_rate.den as nat;
    let unit = 1_000_000_000 * b.ack_rate.num as nat;
    let q = b.cwnd(rate);
    assert(q == sent / unit);
    assert(q * unit <= sent < (q + 1) * unit) by (nonlinear_arith)
        requires
            unit > 0,
            q == sent / unit,
    ;
}

/// Every acknowledgement counts as one packet, every loss as the packets that it is, and nothing
/// else counts.
pub proof fn law_counted_events(b: BrutalState, events: Seq<PathEvent>, event: PathEvent)
    ensures
        counted_events(b, Seq::empty()).len() == 0,
        ({
            let before = counted_events(b, events);
            let after = counted_events(b, events.push(event));
            match event {
                PathEvent::Acked { ts, .. } => after == before.push(
                    PacketEvent { ts, ack: 1, loss: 0 },
                ),
                PathEvent::Lost { ts, bytes } => after == before.push(
                    PacketEvent { ts, ack: 0, loss: b.on_all(events).packets(bytes) },
                ),
                _ => after == before,
            }
        }),
{
    assert(events.push(event).drop_last() =~= events);
}

/// The packets between two seconds are those of every event in between, both ends among them.
pub proof fn law_packets_between(events: Seq<PacketEvent>, e: PacketEvent, from: int, to: int)
    ensures
        packets_between(Seq::empty(), from, to) == (0nat, 0nat),
        ({
            let (acks, losses) = packets_between(events, from, to);
            &&& from <= e.ts <= to ==> packets_between(events.push(e), from, to) == (
                acks + e.ack,
                losses + e.loss,
            )
            &&& !(from <= e.ts <= to) ==> packets_between(events.push(e), from, to) == (
                acks,
                losses,
            )
        }),
{
    assert(events.push(e).drop_last() =~= events);
}

/// What the handshake makes of the upload, for whatever the server says: `auto` hands it to BBR
/// and leaves the rate, a rate below the configured one takes its place, and anything else
/// changes nothing.
pub proof fn law_upload_after_handshake(c: UploadControl, auth: AuthResponse)
    ensures
        ({
            let s = c.settled(auth);
            &&& s.use_bbr == (c.use_bbr || auth.rx_auto)
            &&& s.rate <= c.rate
            &&& s.rate != c.rate ==> s.rate == auth.server_rx && !auth.rx_auto
            &&& auth.rx_auto || auth.server_rx == 0 ==> s.rate == c.rate
            &&& !auth.rx_auto && auth.server_rx > 0 ==> s.rate <= auth.server_rx
        }),
{
}

/// BBR's window governs exactly if the flag is set, and of the two only Brutal is moved by what
/// happens on the path.
pub proof fn law_side_by_side<B>(s: SideBySide<B>, event: PathEvent, bbr: B, mine: nat, its: nat)
    ensures
        governing(true, mine, its) == its,
        governing(false, mine, its) == mine,
        s.on(event, bbr).brutal == s.brutal.on(event),
        s.on(event, bbr).bbr == bbr,
{
}

} // verus!
