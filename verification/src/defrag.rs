//! Reassembly of fragmented UDP messages.

use vstd::prelude::*;

use crate::fragment;
use crate::udp_message::UdpMessage;
use crate::udp_message;

verus! {

/// Reassembles fragmented UDP messages. It only tracks one packet ID at a time; a new
/// packet ID, or another number of fragments, discards prior state.
pub struct Defragger {
    pkt_id: u16,
    frags: Vec<Option<UdpMessage>>,
    count: usize,
}

/// What a `Defragger` remembers.
#[verifier::ext_equal]
pub struct Partial {
    /// The packet being collected.
    pub pkt_id: u16,
    /// Its fragments, those that have arrived.
    pub slots: Seq<Option<udp_message::Message>>,
    /// How many fragments were put into empty slots since the packet began. This passes the
    /// number of slots only after the packet was handed out.
    pub count: nat,
}

/// How many of the slots are filled.
pub open spec fn filled(slots: Seq<Option<udp_message::Message>>) -> nat
    decreases slots.len(),
{
    if slots.len() == 0 {
        0
    } else {
        filled(slots.drop_last()) + if slots.last() is Some {
            1nat
        } else {
            0nat
        }
    }
}

/// `n` empty slots.
pub open spec fn no_fragments(n: nat) -> Seq<Option<udp_message::Message>> {
    Seq::new(n, |i: int| None)
}

/// The payloads of the filled slots, one after the other.
pub open spec fn joined(slots: Seq<Option<udp_message::Message>>) -> Seq<u8>
    decreases slots.len(),
{
    if slots.len() == 0 {
        Seq::empty()
    } else {
        joined(slots.drop_last()) + match slots.last() {
            Some(m) => m.data,
            None => Seq::empty(),
        }
    }
}

/// The message that a full row of fragments stands for: the first fragment's header with
/// the payloads joined.
pub open spec fn assembled(slots: Seq<Option<udp_message::Message>>) -> udp_message::Message {
    udp_message::Message { frag_id: 0, frag_count: 1, data: joined(slots), ..slots[0]->0 }
}

impl Partial {
    /// What a new `Defragger` remembers: nothing.
    pub open spec fn empty() -> Partial {
        Partial { pkt_id: 0, slots: Seq::empty(), count: 0 }
    }

    /// A packet is either still incomplete, or was handed out and its slots emptied.
    pub open spec fn wf(self) -> bool {
        &&& self.slots.len() <= 255
        &&& {
            ||| self.count == filled(self.slots) && (self.slots.len() > 0 ==> self.count
                < self.slots.len())
            ||| self.count == self.slots.len() + filled(self.slots)
        }
    }

    /// Whether `m` belongs to the packet that is being tracked.
    pub open spec fn tracks(self, m: udp_message::Message) -> bool {
        m.packet_id == self.pkt_id && m.frag_count == self.slots.len()
    }

    /// The state and the answer after `m` arrives.
    pub open spec fn fed(self, m: udp_message::Message) -> (Partial, Option<
        udp_message::Message,
    >) {
        let i = m.frag_id as int;
        if m.frag_count <= 1 {
            (self, Some(m))
        } else if m.frag_id >= m.frag_count {
            (self, None)
        } else if !self.tracks(m) {
            (
                Partial {
                    pkt_id: m.packet_id,
                    slots: no_fragments(m.frag_count as nat).update(i, Some(m)),
                    count: 1,
                },
                None,
            )
        } else if self.slots[i] is Some {
            (self, None)
        } else {
            let slots = self.slots.update(i, Some(m));
            let count = self.count + 1;
            if count == slots.len() {
                (
                    Partial { slots: no_fragments(slots.len()), count, ..self },
                    Some(assembled(slots)),
                )
            } else {
                (Partial { slots, count, ..self }, None)
            }
        }
    }
}

proof fn lemma_filled_none(n: nat)
    ensures
        filled(no_fragments(n)) == 0,
    decreases n,
{
    if n > 0 {
        lemma_filled_none((n - 1) as nat);
        assert(no_fragments(n).drop_last() =~= no_fragments((n - 1) as nat));
    }
}

proof fn lemma_filled_update(slots: Seq<Option<udp_message::Message>>, i: int, m: udp_message::Message)
    requires
        0 <= i < slots.len(),
        slots[i] is None,
    ensures
        filled(slots.update(i, Some(m))) == filled(slots) + 1,
    decreases slots.len(),
{
    let after = slots.update(i, Some(m));
    if i == slots.len() - 1 {
        assert(after.drop_last() =~= slots.drop_last());
    } else {
        lemma_filled_update(slots.drop_last(), i, m);
        assert(after.drop_last() =~= slots.drop_last().update(i, Some(m)));
    }
}

proof fn lemma_filled_bound(slots: Seq<Option<udp_message::Message>>)
    ensures
        filled(slots) <= slots.len(),
        filled(slots) == slots.len() ==> forall|i: int|
            0 <= i < slots.len() ==> (#[trigger] slots[i]) is Some,
    decreases slots.len(),
{
    if slots.len() > 0 {
        lemma_filled_bound(slots.drop_last());
        if filled(slots) == slots.len() {
            assert forall|i: int| 0 <= i < slots.len() implies (#[trigger] slots[i]) is Some by {
                if i < slots.len() - 1 {
                    assert(slots[i] == slots.drop_last()[i]);
                }
            }
        }
    }
}

/// Feeding keeps the invariant, and what is handed out is made of all the fragments.
pub proof fn law_feed_keeps_invariant(p: Partial, m: udp_message::Message)
    requires
        p.wf(),
    ensures
        p.fed(m).0.wf(),
        m.frag_count > 1 && p.fed(m).1 is Some ==> forall|i: int|
            0 <= i < p.slots.len() ==> (#[trigger] p.slots.update(m.frag_id as int, Some(m))[i]) is Some,
{
    let i = m.frag_id as int;
    lemma_filled_none(m.frag_count as nat);
    lemma_filled_none(p.slots.len());
    lemma_filled_bound(p.slots);
    if 1 < m.frag_count && m.frag_id < m.frag_count {
        if !p.tracks(m) {
            lemma_filled_update(no_fragments(m.frag_count as nat), i, m);
        } else if p.slots[i] is None {
            lemma_filled_update(p.slots, i, m);
            lemma_filled_bound(p.slots.update(i, Some(m)));
        }
    }
}

/// The state and the answers after the messages `ms` arrive one after the other.
pub open spec fn fed_all(p: Partial, ms: Seq<udp_message::Message>) -> (Partial, Seq<
    Option<udp_message::Message>,
>)
    decreases ms.len(),
{
    if ms.len() == 0 {
        (p, Seq::empty())
    } else {
        let (q, answers) = fed_all(p, ms.drop_last());
        let (r, answer) = q.fed(ms.last());
        (r, answers.push(answer))
    }
}

/// Whether `row` holds the fragments of one packet, each in its place.
pub open spec fn is_row(row: Seq<udp_message::Message>) -> bool {
    &&& 2 <= row.len() <= 255
    &&& forall|i: int| #![trigger row[i]]
        0 <= i < row.len() ==> {
            &&& row[i].packet_id == row[0].packet_id
            &&& row[i].frag_id == i
            &&& row[i].frag_count == row.len()
        }
}

/// Whether `order` names each of `0..n` once.
pub open spec fn is_order(order: Seq<int>, n: nat) -> bool {
    &&& order.len() == n
    &&& order.no_duplicates()
    &&& forall|k: int| 0 <= k < n ==> 0 <= #[trigger] order[k] < n
}

/// The messages of `row`, in the order `order`.
pub open spec fn arranged(row: Seq<udp_message::Message>, order: Seq<int>) -> Seq<
    udp_message::Message,
> {
    Seq::new(order.len(), |k: int| row[order[k]])
}

/// A row of fragments as filled slots.
pub open spec fn as_slots(row: Seq<udp_message::Message>) -> Seq<Option<udp_message::Message>> {
    Seq::new(row.len(), |i: int| Some(row[i]))
}

/// After the first `k` fragments of a row, but not all, exactly those are remembered.
proof fn lemma_collecting(p: Partial, row: Seq<udp_message::Message>, order: Seq<int>, k: int)
    requires
        p.wf(),
        is_row(row),
        is_order(order, row.len()),
        !p.tracks(row[0]),
        0 < k < row.len(),
    ensures
        ({
            let (q, answers) = fed_all(p, arranged(row, order).take(k));
            &&& q.wf()
            &&& q.pkt_id == row[0].packet_id
            &&& q.slots.len() == row.len()
            &&& q.count == k
            &&& answers.len() == k
            &&& forall|j: int| 0 <= j < k ==> (#[trigger] answers[j]) is None
            &&& forall|i: int|
                0 <= i < row.len() && (#[trigger] q.slots[i]) is Some ==> q.slots[i] == Some(row[i])
                    && order.take(k).contains(i)
        }),
    decreases k,
{
    let ms = arranged(row, order);
    assert(ms.take(k).drop_last() =~= ms.take(k - 1));
    let (q, answers) = fed_all(p, ms.take(k - 1));
    let at = order[k - 1];
    let m = row[at];
    assert(ms.take(k).last() == m);
    assert(row[0].packet_id == m.packet_id);
    assert(order.take(k)[k - 1] == at);
    if k == 1 {
        assert(ms.take(0) =~= Seq::empty());
        assert(q == p);
        law_feed_keeps_invariant(p, m);
    } else {
        lemma_collecting(p, row, order, k - 1);
        law_feed_keeps_invariant(q, m);
        if q.slots[at] is Some {
            assert(order.take(k - 1).contains(at));
            let j = order.take(k - 1).index_of(at);
            assert(order[j] == order[k - 1]);
            assert(false);
        }
        assert forall|i: int|
            0 <= i < row.len() && (#[trigger] q.fed(m).0.slots[i]) is Some implies order.take(
            k,
        ).contains(i) by {
            if i != at {
                assert(q.slots[i] is Some);
                assert(order.take(k - 1).contains(i));
                let j = order.take(k - 1).index_of(i);
                assert(order.take(k)[j] == i);
            }
        }
    }
}

/// The fragments of one packet, fed in whatever order to a `Defragger` that is not already
/// busy with a packet of the same ID and number of fragments, give the joined message with
/// the last of them, and nothing before that.
pub proof fn law_defrag_any_order(
    p: Partial,
    row: Seq<udp_message::Message>,
    order: Seq<int>,
)
    requires
        p.wf(),
        is_row(row),
        is_order(order, row.len()),
        !p.tracks(row[0]),
    ensures
        ({
            let n = row.len() as int;
            let answers = fed_all(p, arranged(row, order)).1;
            &&& answers.len() == n
            &&& forall|j: int| 0 <= j < n - 1 ==> (#[trigger] answers[j]) is None
            &&& answers[n - 1] == Some(assembled(as_slots(row)))
        }),
{
    let n = row.len() as int;
    let ms = arranged(row, order);
    let (q, answers) = fed_all(p, ms.take(n - 1));
    lemma_collecting(p, row, order, n - 1);
    assert(ms.drop_last() =~= ms.take(n - 1));
    let at = order[n - 1];
    let m = row[at];
    assert(row[0].packet_id == m.packet_id);
    if q.slots[at] is Some {
        assert(order.take(n - 1).contains(at));
        let j = order.take(n - 1).index_of(at);
        assert(order[j] == order[n - 1]);
        assert(false);
    }
    law_feed_keeps_invariant(q, m);
    let slots = q.slots.update(at, Some(m));
    assert forall|i: int| 0 <= i < n implies slots[i] == as_slots(row)[i] by {
        assert(q.slots.update(m.frag_id as int, Some(m))[i] is Some);
        if i != at {
            assert(q.slots[i] is Some);
        }
    }
    assert(slots =~= as_slots(row));
}

/// Whether `ms` are fragments of the packet `id` in `n` fragments, with or without repeats.
pub open spec fn are_copies(ms: Seq<udp_message::Message>, id: u16, n: nat) -> bool {
    forall|k: int| #![trigger ms[k]]
        0 <= k < ms.len() ==> {
            &&& ms[k].packet_id == id
            &&& ms[k].frag_count == n
            &&& ms[k].frag_id < n
        }
}

/// The first copy of each of `n` fragments among `ms`.
pub open spec fn first_copies(ms: Seq<udp_message::Message>, n: nat) -> Seq<
    Option<udp_message::Message>,
>
    decreases ms.len(),
{
    if ms.len() == 0 {
        no_fragments(n)
    } else {
        let before = first_copies(ms.drop_last(), n);
        let i = ms.last().frag_id as int;
        if before[i] is None {
            before.update(i, Some(ms.last()))
        } else {
            before
        }
    }
}

/// Whether all of `n` fragments are among `ms`.
pub open spec fn all_there(ms: Seq<udp_message::Message>, n: nat) -> bool {
    filled(first_copies(ms, n)) == n
}

proof fn lemma_first_copies(ms: Seq<udp_message::Message>, id: u16, n: nat)
    requires
        are_copies(ms, id, n),
    ensures
        first_copies(ms, n).len() == n,
        filled(first_copies(ms, n)) <= n,
        ms.len() > 0 ==> filled(first_copies(ms.drop_last(), n)) <= filled(first_copies(ms, n)),
        ms.len() == 0 ==> filled(first_copies(ms, n)) == 0,
    decreases ms.len(),
{
    if ms.len() == 0 {
        lemma_filled_none(n);
    } else {
        assert forall|k: int| #![trigger ms.drop_last()[k]] 0 <= k < ms.len() - 1 implies {
            &&& ms.drop_last()[k].packet_id == id
            &&& ms.drop_last()[k].frag_count == n
            &&& ms.drop_last()[k].frag_id < n
        } by {
            assert(ms.drop_last()[k] == ms[k]);
        }
        lemma_first_copies(ms.drop_last(), id, n);
        let before = first_copies(ms.drop_last(), n);
        let m = ms[ms.len() - 1];
        assert(m.frag_id < n);
        if before[m.frag_id as int] is None {
            lemma_filled_update(before, m.frag_id as int, m);
        }
    }
    lemma_filled_bound(first_copies(ms, n));
}

/// What is remembered after some fragments of one packet: the first copy of each until all are
/// there, and afterwards that the packet was handed out.
proof fn lemma_copies(p: Partial, ms: Seq<udp_message::Message>, id: u16, n: nat)
    requires
        p.wf(),
        2 <= n <= 255,
        ms.len() > 0,
        are_copies(ms, id, n),
        !p.tracks(ms[0]),
    ensures
        ({
            let (q, answers) = fed_all(p, ms);
            let last = ms.len() - 1;
            &&& q.wf()
            &&& q.pkt_id == id
            &&& q.slots.len() == n
            &&& !all_there(ms, n) ==> q.slots == first_copies(ms, n) && q.count == filled(
                first_copies(ms, n),
            )
            &&& all_there(ms, n) ==> q.count >= n
            &&& answers.len() == ms.len()
            &&& answers[last] == if all_there(ms, n) && !all_there(ms.drop_last(), n) {
                Some(assembled(first_copies(ms, n)))
            } else {
                None
            }
        }),
    decreases ms.len(),
{
    let before = ms.drop_last();
    let m = ms[ms.len() - 1];
    let i = m.frag_id as int;
    assert(m.packet_id == id && m.frag_count == n && m.frag_id < n);
    assert forall|k: int| #![trigger before[k]] 0 <= k < before.len() implies {
        &&& before[k].packet_id == id
        &&& before[k].frag_count == n
        &&& before[k].frag_id < n
    } by {
        assert(before[k] == ms[k]);
    }
    let (q, answers) = fed_all(p, before);
    lemma_first_copies(ms, id, n);
    lemma_first_copies(before, id, n);
    let copies = first_copies(before, n);
    if before.len() == 0 {
        assert(q == p);
        law_feed_keeps_invariant(p, m);
        lemma_filled_update(no_fragments(n), i, m);
        assert(copies == no_fragments(n));
    } else {
        assert(before[0] == ms[0]);
        lemma_copies(p, before, id, n);
        law_feed_keeps_invariant(q, m);
        if copies[i] is None {
            lemma_filled_update(copies, i, m);
        }
        if all_there(before, n) {
            lemma_filled_bound(copies);
        }
    }
}

/// Repeats change nothing. However often and in whatever order the fragments of one packet
/// arrive, the first copy of each counts: the joined message is handed out when the last one
/// that was missing arrives, and not again, by whatever comes later.
pub proof fn law_first_copies_count(p: Partial, ms: Seq<udp_message::Message>, id: u16, n: nat)
    requires
        p.wf(),
        2 <= n <= 255,
        ms.len() > 0,
        are_copies(ms, id, n),
        !p.tracks(ms[0]),
    ensures
        ({
            let answers = fed_all(p, ms).1;
            &&& answers.len() == ms.len()
            &&& forall|j: int|
                0 <= j < ms.len() ==> #[trigger] answers[j] == if all_there(ms.take(j + 1), n)
                    && !all_there(ms.take(j), n) {
                    Some(assembled(first_copies(ms.take(j + 1), n)))
                } else {
                    None
                }
        }),
    decreases ms.len(),
{
    let before = ms.drop_last();
    lemma_copies(p, ms, id, n);
    let answers = fed_all(p, ms).1;
    assert(ms.take(ms.len() as int) =~= ms);
    assert(ms.take(ms.len() - 1) =~= before);
    if before.len() > 0 {
        assert forall|k: int| #![trigger before[k]] 0 <= k < before.len() implies {
            &&& before[k].packet_id == id
            &&& before[k].frag_count == n
            &&& before[k].frag_id < n
        } by {
            assert(before[k] == ms[k]);
        }
        assert(before[0] == ms[0]);
        law_first_copies_count(p, before, id, n);
        let earlier = fed_all(p, before).1;
        assert forall|j: int| 0 <= j < ms.len() implies #[trigger] answers[j] == if all_there(
            ms.take(j + 1),
            n,
        ) && !all_there(ms.take(j), n) {
            Some(assembled(first_copies(ms.take(j + 1), n)))
        } else {
            None
        } by {
            if j < before.len() {
                assert(answers[j] == earlier[j]);
                assert(before.take(j + 1) =~= ms.take(j + 1));
                assert(before.take(j) =~= ms.take(j));
            }
        }
    }
}

/// A packet that was handed out is not handed out again: late duplicates are not answered, and
/// leave it at that.
pub proof fn law_handed_out_once(p: Partial, m: udp_message::Message)
    requires
        p.wf(),
        p.count >= p.slots.len(),
        p.tracks(m),
        m.frag_count > 1,
    ensures
        p.fed(m).1 is None,
        p.fed(m).0.count >= p.fed(m).0.slots.len(),
        p.fed(m).0.tracks(m),
{
}

/// A `Defragger` that follows one packet forgets it when a fragment of another arrives.
pub proof fn law_new_packet_resets(p: Partial, m: udp_message::Message)
    requires
        p.wf(),
        m.frag_id < m.frag_count,
        m.frag_count > 1,
        !p.tracks(m),
    ensures
        p.fed(m).1 is None,
        p.fed(m) == Partial::empty().fed(m),
{
}

proof fn lemma_joined_fragments(m: udp_message::Message, max_size: nat, k: int)
    requires
        m.wire_len() > max_size,
        fragment::piece_len(m, max_size) > 0,
        0 <= k <= fragment::fragment_count_spec(m, max_size),
    ensures
        joined(as_slots(fragment::fragments(m, max_size)).take(k)) == m.data.take(
            fragment::least(k * fragment::piece_len(m, max_size), m.data.len() as int),
        ),
    decreases k,
{
    let piece = fragment::piece_len(m, max_size);
    let slots = as_slots(fragment::fragments(m, max_size));
    let len = m.data.len();
    if k == 0 {
        assert(0 * piece == 0) by (nonlinear_arith);
        assert(slots.take(0) =~= Seq::empty());
        assert(m.data.take(0) =~= Seq::empty());
    } else {
        lemma_joined_fragments(m, max_size, k - 1);
        fragment::lemma_pieces(len, piece, k - 1);
        assert(k * piece == (k - 1) * piece + piece) by (nonlinear_arith);
        assert((k - 1) * piece >= 0) by (nonlinear_arith)
            requires
                k >= 1,
        ;
        assert(slots.take(k).drop_last() =~= slots.take(k - 1));
        let f = fragment::fragments(m, max_size)[k - 1];
        assert(slots.take(k).last() == Some(f));
        assert(m.data.take((k - 1) * piece) + f.data =~= m.data.take(
            fragment::least(k * piece, len as int),
        ));
    }
}

/// Splitting a message and feeding the fragments, in whatever order, to a `Defragger` that is
/// not already busy with a packet of the same ID and number of fragments, gives back the
/// message, as one that was not split.
pub proof fn law_split_then_join(
    p: Partial,
    m: udp_message::Message,
    max_size: nat,
    order: Seq<int>,
)
    requires
        p.wf(),
        2 <= fragment::fragment_count_spec(m, max_size) <= 255,
        is_order(order, fragment::fragment_count_spec(m, max_size)),
        !(p.pkt_id == m.packet_id && p.slots.len() == fragment::fragment_count_spec(m, max_size)),
    ensures
        ({
            let row = fragment::fragments(m, max_size);
            let n = row.len() as int;
            let answers = fed_all(p, arranged(row, order)).1;
            &&& n == fragment::fragment_count_spec(m, max_size)
            &&& answers.len() == n
            &&& forall|j: int| 0 <= j < n - 1 ==> (#[trigger] answers[j]) is None
            &&& answers[n - 1] == Some(udp_message::Message { frag_id: 0, frag_count: 1, ..m })
        }),
{
    let row = fragment::fragments(m, max_size);
    let n = row.len() as int;
    let piece = fragment::piece_len(m, max_size);
    assert(is_row(row));
    law_defrag_any_order(p, row, order);
    lemma_joined_fragments(m, max_size, n);
    fragment::lemma_pieces(m.data.len(), piece, n);
    assert(as_slots(row).take(n) =~= as_slots(row));
    assert(m.data.take(m.data.len() as int) =~= m.data);
    assert(assembled(as_slots(row)) =~= (udp_message::Message { frag_id: 0, frag_count: 1, ..m }));
}

pub open spec fn slot_view(slot: Option<UdpMessage>) -> Option<udp_message::Message> {
    match slot {
        Some(m) => Some(m@),
        None => None,
    }
}

fn empty_slots(n: usize) -> (v: Vec<Option<UdpMessage>>)
    ensures
        v@.len() == n,
        forall|i: int| 0 <= i < n ==> (#[trigger] v@[i]) is None,
{
    let mut v: Vec<Option<UdpMessage>> = Vec::with_capacity(n);
    while v.len() < n
        invariant
            v@.len() <= n,
            forall|i: int| 0 <= i < v@.len() ==> (#[trigger] v@[i]) is None,
        decreases n - v@.len(),
    {
        v.push(None);
    }
    v
}

impl View for Defragger {
    type V = Partial;

    closed spec fn view(&self) -> Partial {
        Partial {
            pkt_id: self.pkt_id,
            slots: Seq::new(self.frags@.len(), |i: int| slot_view(self.frags@[i])),
            count: self.count as nat,
        }
    }
}

impl Default for Defragger {
    fn default() -> (d: Defragger)
        ensures
            d@ == Partial::empty(),
            d@.wf(),
    {
        let d = Defragger { pkt_id: 0, frags: Vec::new(), count: 0 };
        assert(d@ =~= Partial::empty());
        d
    }
}

impl Defragger {
    /// Feed a (possibly fragmented) message. Returns the fully reassembled
    /// message once all fragments have arrived, otherwise `None`.
    pub fn feed(&mut self, m: UdpMessage) -> (r: Option<UdpMessage>)
        requires
            old(self)@.wf(),
        ensures
            final(self)@ == old(self)@.fed(m@).0,
            slot_view(r) == old(self)@.fed(m@).1,
            final(self)@.wf(),
    {
        proof {
            law_feed_keeps_invariant(self@, m@);
            lemma_filled_bound(self@.slots);
        }
        if m.frag_count <= 1 {
            return Some(m);
        }
        if m.frag_id >= m.frag_count {
            return None;
        }
        let ghost before = self@;
        let ghost given = m@;
        let frag_id: usize = m.frag_id as usize;
        if m.packet_id != self.pkt_id || m.frag_count as usize != self.frags.len() {
            // A new packet: forget the old one.
            self.pkt_id = m.packet_id;
            self.frags = empty_slots(m.frag_count as usize);
            self.count = 1;
            self.frags[frag_id] = Some(m);
            assert(self@ =~= before.fed(given).0);
            return None;
        }
        if self.frags[frag_id].is_some() {
            return None;
        }
        self.count += 1;
        self.frags[frag_id] = Some(m);
        let n: usize = self.frags.len();
        let ghost slots = before.slots.update(frag_id as int, Some(given));
        assert(self@.slots =~= slots);
        if self.count != n {
            assert(self@ =~= before.fed(given).0);
            return None;
        }
        // Every fragment is there: join them in order.
        let mut frags = empty_slots(n);
        core::mem::swap(&mut frags, &mut self.frags);
        assert(self@ =~= before.fed(given).0);
        let mut data: Vec<u8> = Vec::new();
        let mut first: Option<UdpMessage> = None;
        let mut i: usize = 0;
        assert(slots.take(0) =~= Seq::empty());
        while i < n
            invariant
                i <= n == frags@.len() == slots.len(),
                n > 0,
                forall|j: int| i <= j < n ==> slot_view(#[trigger] frags@[j]) == slots[j],
                forall|j: int| 0 <= j < n ==> (#[trigger] slots[j]) is Some,
                data@ == joined(slots.take(i as int)),
                i == 0 ==> first is None,
                i > 0 ==> slot_view(first) == slots[0],
            decreases n - i,
        {
            assert(slots.take(i + 1).drop_last() =~= slots.take(i as int));
            assert(slot_view(frags@[i as int]) == slots[i as int]);
            if let Some(frag) = frags[i].take() {
                let ghost sofar = data@;
                data.extend_from_slice(frag.data.as_slice());
                assert(data@ =~= sofar + frag.data@);
                if first.is_none() {
                    first = Some(frag);
                }
            }
            i += 1;
        }
        assert(slots.take(n as int) =~= slots);
        match first {
            Some(f) => {
                let mut out = f;
                out.data = data;
                out.frag_id = 0;
                out.frag_count = 1;
                assert(out@ =~= assembled(slots));
                Some(out)
            },
            None => None,
        }
    }
}

/// A message that is not fragmented passes, and leaves a packet that is being collected alone; a
/// fragment with a number that it cannot have is not taken.
pub proof fn law_passes_and_ignored(p: Partial, m: udp_message::Message)
    ensures
        m.frag_count <= 1 ==> p.fed(m) == (p, Some(m)),
        m.frag_count > 1 && m.frag_id >= m.frag_count ==> p.fed(m) == (
            p,
            None::<udp_message::Message>,
        ),
{
}

/// What becomes of a fragment with a possible number. The first one of a packet begins it anew,
/// with nothing else remembered; one more is put in its place, unless there is one already; and
/// with the last that was missing the packet is joined and handed out, which empties the places.
pub proof fn law_fragment_is_collected(p: Partial, m: udp_message::Message, i: int)
    requires
        m.frag_id < m.frag_count,
        m.frag_count > 1,
    ensures
        ({
            let (q, answer) = p.fed(m);
            let n = m.frag_count as int;
            let at = m.frag_id as int;
            if m.packet_id != p.pkt_id || n != p.slots.len() {
                &&& answer is None
                &&& q.pkt_id == m.packet_id
                &&& q.slots.len() == n
                &&& q.count == 1
                &&& q.slots[at] == Some(m)
                &&& 0 <= i < n && i != at ==> q.slots[i] is None
            } else if p.slots[at] is Some {
                answer is None && q == p
            } else if p.count + 1 < n || p.count + 1 > n {
                &&& answer is None
                &&& q.pkt_id == p.pkt_id
                &&& q.count == p.count + 1
                &&& q.slots == p.slots.update(at, Some(m))
            } else {
                &&& answer == Some(assembled(p.slots.update(at, Some(m))))
                &&& q.pkt_id == p.pkt_id
                &&& q.slots.len() == n
                &&& q.count == n
                &&& 0 <= i < n ==> q.slots[i] is None
            }
        }),
{
}

/// A fragment belongs to the packet that is being collected if it has its ID and its number of
/// fragments. At first there is none.
pub proof fn law_tracking(p: Partial, m: udp_message::Message)
    ensures
        p.tracks(m) <==> m.packet_id == p.pkt_id && m.frag_count as int == p.slots.len(),
        Partial::empty().pkt_id == 0,
        Partial::empty().slots.len() == 0,
        Partial::empty().count == 0,
{
}

/// The joined message is that of the first fragment with the payloads of all of them, one after
/// the other, and counts as one that was not split.
pub proof fn law_joined_message(slots: Seq<Option<udp_message::Message>>)
    requires
        slots.len() > 0,
        forall|i: int| 0 <= i < slots.len() ==> (#[trigger] slots[i]) is Some,
    ensures
        ({
            let m = assembled(slots);
            &&& m.session_id == slots[0]->0.session_id
            &&& m.packet_id == slots[0]->0.packet_id
            &&& m.addr == slots[0]->0.addr
            &&& m.frag_id == 0
            &&& m.frag_count == 1
            &&& m.data == Seq::new(slots.len(), |i: int| slots[i]->0.data).flatten()
        }),
{
    lemma_joined_is_flat(slots);
}

proof fn lemma_joined_is_flat(slots: Seq<Option<udp_message::Message>>)
    requires
        forall|i: int| 0 <= i < slots.len() ==> (#[trigger] slots[i]) is Some,
    ensures
        joined(slots) == Seq::new(slots.len(), |i: int| slots[i]->0.data).flatten(),
    decreases slots.len(),
{
    let parts = Seq::new(slots.len(), |i: int| slots[i]->0.data);
    if slots.len() == 0 {
        assert(parts.flatten() =~= Seq::<u8>::empty());
    } else {
        let before = slots.drop_last();
        assert forall|i: int| 0 <= i < before.len() implies (#[trigger] before[i]) is Some by {
            assert(before[i] == slots[i]);
        }
        lemma_joined_is_flat(before);
        let firsts = Seq::new(before.len(), |i: int| before[i]->0.data);
        assert(slots[slots.len() - 1] is Some);
        assert(parts =~= firsts.push(slots.last()->0.data));
        parts.lemma_flatten_and_flatten_alt_are_equivalent();
        firsts.lemma_flatten_and_flatten_alt_are_equivalent();
        assert(parts.drop_last() =~= firsts);
        assert(parts.flatten() =~= firsts.flatten() + slots.last()->0.data);
    }
}

/// Of each fragment it is the first that counts: in its place stands the one that came before
/// all others with its number, and nothing if none came.
pub proof fn law_first_copy(ms: Seq<udp_message::Message>, n: nat, i: int)
    requires
        forall|k: int| 0 <= k < ms.len() ==> (#[trigger] ms[k]).frag_id < n,
        0 <= i < n,
    ensures
        first_copies(ms, n).len() == n,
        match first_copies(ms, n)[i] {
            None => forall|k: int| 0 <= k < ms.len() ==> (#[trigger] ms[k]).frag_id != i,
            Some(m) => exists|k: int|
                0 <= k < ms.len() && m == #[trigger] ms[k] && m.frag_id == i && forall|j: int|
                    0 <= j < k ==> (#[trigger] ms[j]).frag_id != i,
        },
    decreases ms.len(),
{
    if ms.len() > 0 {
        let before = ms.drop_last();
        assert forall|k: int| 0 <= k < before.len() implies (#[trigger] before[k]).frag_id < n by {
            assert(before[k] == ms[k]);
        }
        law_first_copy(before, n, i);
        let last = ms.len() - 1;
        assert(ms[last].frag_id < n);
        let had = first_copies(before, n)[i];
        if had is Some {
            let k = choose|k: int|
                0 <= k < before.len() && had->0 == #[trigger] before[k] && had->0.frag_id == i
                    && forall|j: int| 0 <= j < k ==> (#[trigger] before[j]).frag_id != i;
            assert(ms[k] == before[k]);
            assert forall|j: int| 0 <= j < k implies (#[trigger] ms[j]).frag_id != i by {
                assert(ms[j] == before[j]);
            }
            assert(first_copies(ms, n)[i] == had);
        } else {
            assert forall|j: int| 0 <= j < last implies (#[trigger] ms[j]).frag_id != i by {
                assert(ms[j] == before[j]);
            }
            if ms[last].frag_id == i {
                assert(first_copies(ms, n)[i] == Some(ms[last]));
            } else {
                assert(first_copies(ms, n)[i] is None);
            }
        }
    }
}

proof fn lemma_filled_all(slots: Seq<Option<udp_message::Message>>)
    requires
        forall|i: int| 0 <= i < slots.len() ==> (#[trigger] slots[i]) is Some,
    ensures
        filled(slots) == slots.len(),
    decreases slots.len(),
{
    if slots.len() > 0 {
        let before = slots.drop_last();
        assert forall|i: int| 0 <= i < before.len() implies (#[trigger] before[i]) is Some by {
            assert(before[i] == slots[i]);
        }
        lemma_filled_all(before);
        assert(slots[slots.len() - 1] is Some);
    }
}

/// All fragments are there exactly if each of the numbers has come.
pub proof fn law_all_there(ms: Seq<udp_message::Message>, n: nat)
    requires
        forall|k: int| 0 <= k < ms.len() ==> (#[trigger] ms[k]).frag_id < n,
    ensures
        ({
            let numbers = ms.map_values(|m: udp_message::Message| m.frag_id as int);
            all_there(ms, n) <==> forall|i: int| 0 <= i < n ==> #[trigger] numbers.contains(i)
        }),
{
    let copies = first_copies(ms, n);
    let numbers = ms.map_values(|m: udp_message::Message| m.frag_id as int);
    if n == 0 {
        if ms.len() > 0 {
            assert(ms[0].frag_id < n);
        }
        assert(copies.len() == 0);
    } else {
        law_first_copy(ms, n, 0);
    }
    lemma_filled_bound(copies);
    assert forall|i: int| 0 <= i < n implies (#[trigger] numbers.contains(i) <==> copies[i] is Some) by {
        law_first_copy(ms, n, i);
        if copies[i] is Some {
            let k = choose|k: int|
                0 <= k < ms.len() && copies[i]->0 == #[trigger] ms[k] && copies[i]->0.frag_id == i;
            assert(numbers[k] == i);
        }
        if numbers.contains(i) {
            let k = numbers.index_of(i);
            assert(ms[k].frag_id == i);
        }
    }
    if all_there(ms, n) {
        assert forall|i: int| 0 <= i < n implies #[trigger] numbers.contains(i) by {
            assert(copies[i] is Some);
        }
    }
    if forall|i: int| 0 <= i < n ==> #[trigger] numbers.contains(i) {
        assert forall|i: int| 0 <= i < copies.len() implies (#[trigger] copies[i]) is Some by {
            assert(numbers.contains(i));
        }
        lemma_filled_all(copies);
    }
}

/// Messages are fed one after the other, and each has its answer.
pub proof fn law_fed_in_order(p: Partial, ms: Seq<udp_message::Message>, m: udp_message::Message)
    ensures
        fed_all(p, Seq::empty()) == (p, Seq::<Option<udp_message::Message>>::empty()),
        ({
            let (q, answers) = fed_all(p, ms);
            let (r, answer) = q.fed(m);
            fed_all(p, ms.push(m)) == (r, answers.push(answer))
        }),
{
    assert(ms.push(m).drop_last() =~= ms);
}

/// A full row and its slots are the same fragments, and an answer is the message that it holds.
pub proof fn law_slots_of_a_row(row: Seq<udp_message::Message>, i: int, m: UdpMessage)
    requires
        0 <= i < row.len(),
    ensures
        as_slots(row).len() == row.len(),
        as_slots(row)[i] == Some(row[i]),
        slot_view(Some(m)) == Some(m@),
        slot_view(None) is None,
{
}

} // verus!
