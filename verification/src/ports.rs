//! Port unions: single ports, comma lists and `a-b` ranges, or `all` / `*`.

use vstd::prelude::*;

use crate::text;

verus! {

/// The port number that `s` spells, white space around it aside.
pub open spec fn port(s: Seq<char>) -> Option<nat> {
    text::decimal_within(text::trimmed(s), 65535)
}

/// The lowest and the highest port of one part of a port union: a port, or two with a dash
/// between them, in either order.
pub open spec fn port_range(part: Seq<char>) -> Option<(nat, nat)> {
    let dash = text::find(part, '-');
    if dash < part.len() {
        match (port(part.take(dash)), port(part.skip(dash + 1))) {
            (Some(a), Some(b)) => if a <= b {
                Some((a, b))
            } else {
                Some((b, a))
            },
            _ => None,
        }
    } else {
        match port(part) {
            Some(p) => Some((p, p)),
            None => None,
        }
    }
}

/// Whether `spec` asks for every port.
pub open spec fn means_all(spec: Seq<char>) -> bool {
    spec == seq!['a', 'l', 'l'] || spec == seq!['*']
}

/// Whether `spec` is a port union.
pub open spec fn is_port_union(spec: Seq<char>) -> bool {
    let parts = text::split(spec, ',');
    means_all(spec) || forall|i: int|
        0 <= i < parts.len() ==> port_range(#[trigger] parts[i]) is Some
}

/// Whether one part of a port union covers the port `p`.
pub open spec fn covers(part: Seq<char>, p: int) -> bool {
    match port_range(part) {
        Some((a, b)) => a <= p <= b,
        None => false,
    }
}

/// Whether one of `parts` covers the port `p`.
pub open spec fn covered(parts: Seq<Seq<char>>, p: int) -> bool {
    exists|i: int| 0 <= i < parts.len() && covers(#[trigger] parts[i], p)
}

/// Whether the port union `spec` holds the port `p`.
pub open spec fn in_port_union(spec: Seq<char>, p: u16) -> bool {
    means_all(spec) || covered(text::split(spec, ','), p as int)
}

/// Whether `ports` is ascending without repetition.
pub open spec fn ascending(ports: Seq<u16>) -> bool {
    forall|i: int, j: int| 0 <= i < j < ports.len() ==> ports[i] < ports[j]
}

/// Whether `ports` are the ports of the port union `spec`, sorted and without repetition.
pub open spec fn is_port_list(spec: Seq<char>, ports: Seq<u16>) -> bool {
    &&& is_port_union(spec)
    &&& ascending(ports)
    &&& forall|p: u16| ports.contains(p) <==> in_port_union(spec, p)
    &&& ports.len() > 0
}

proof fn lemma_ascending_unique(a: Seq<u16>, b: Seq<u16>)
    requires
        ascending(a),
        ascending(b),
        forall|p: u16| a.contains(p) <==> b.contains(p),
    ensures
        a == b,
    decreases a.len(),
{
    if a.len() == 0 {
        if b.len() > 0 {
            assert(b.contains(b[0]));
        }
        assert(a =~= b);
    } else {
        assert(a.contains(a.last()));
        assert(b.contains(a.last()));
        assert(b.contains(b.last()));
        assert(a.contains(b.last()));
        assert(a.last() == b.last());
        let (c, d) = (a.drop_last(), b.drop_last());
        assert forall|p: u16| c.contains(p) <==> d.contains(p) by {
            if c.contains(p) {
                let i = c.index_of(p);
                assert(a[i] == p && p < a.last());
                assert(a.contains(p));
                let j = b.index_of(p);
                assert(d[j] == p);
            }
            if d.contains(p) {
                let i = d.index_of(p);
                assert(b[i] == p && p < b.last());
                assert(b.contains(p));
                let j = a.index_of(p);
                assert(c[j] == p);
            }
        }
        lemma_ascending_unique(c, d);
        assert(a =~= c.push(a.last()));
        assert(b =~= d.push(b.last()));
    }
}

/// A port union has only one port list: how it is written, in what order and with what
/// overlaps, makes no difference as long as it holds the same ports.
pub proof fn law_port_list_is_unique(s: Seq<char>, t: Seq<char>, a: Seq<u16>, b: Seq<u16>)
    requires
        is_port_list(s, a),
        is_port_list(t, b),
        forall|p: u16| in_port_union(s, p) <==> in_port_union(t, p),
    ensures
        a == b,
{
    assert forall|p: u16| a.contains(p) <==> b.contains(p) by {
        assert(in_port_union(s, p) <==> in_port_union(t, p));
    }
    lemma_ascending_unique(a, b);
}

proof fn lemma_split_not_empty(s: Seq<char>, c: char)
    ensures
        text::split(s, c).len() > 0,
{
    text::lemma_find(s, c);
}

fn parse_port(s: &[char]) -> (r: Option<u16>)
    ensures
        match r {
            Some(p) => port(s@) == Some(p as nat),
            None => port(s@) is None,
        },
{
    match text::parse_decimal(text::trim(s), 65535) {
        Some(n) => Some(n as u16),
        None => None,
    }
}

fn parse_range(part: &[char]) -> (r: Option<(u16, u16)>)
    ensures
        match r {
            Some((a, b)) => port_range(part@) == Some((a as nat, b as nat)) && a <= b,
            None => port_range(part@) is None,
        },
{
    let dash: usize = text::find_char(part, '-');
    if dash < part.len() {
        let left = vstd::slice::slice_subrange(part, 0, dash);
        let right = vstd::slice::slice_subrange(part, dash + 1, part.len());
        assert(left@ =~= part@.take(dash as int));
        assert(right@ =~= part@.skip(dash + 1));
        match (parse_port(left), parse_port(right)) {
            (Some(a), Some(b)) => {
                if a <= b {
                    Some((a, b))
                } else {
                    Some((b, a))
                }
            },
            _ => None,
        }
    } else {
        match parse_port(part) {
            Some(p) => Some((p, p)),
            None => None,
        }
    }
}

/// The ports that `present` marks, in ascending order.
fn marked(present: &Vec<bool>) -> (ports: Vec<u16>)
    requires
        present@.len() == 65536,
    ensures
        ascending(ports@),
        forall|p: u16| ports@.contains(p) <==> present@[p as int],
{
    let mut ports: Vec<u16> = Vec::new();
    let mut p: usize = 0;
    while p < 65536
        invariant
            p <= 65536,
            present@.len() == 65536,
            ascending(ports@),
            forall|i: int| 0 <= i < ports@.len() ==> #[trigger] ports@[i] < p && present@[ports@[i] as int],
            forall|q: u16| q < p && present@[q as int] ==> ports@.contains(q),
        decreases 65536 - p,
    {
        if present[p] {
            let ghost before = ports@;
            ports.push(p as u16);
            assert forall|q: u16| q < p + 1 && present@[q as int] implies ports@.contains(q) by {
                if q < p {
                    assert(before.contains(q));
                    let i = before.index_of(q);
                    assert(ports@[i] == q);
                } else {
                    assert(ports@[before.len() as int] == q);
                }
            }
        }
        p += 1;
    }
    ports
}

/// Parse a port-union string (single ports, comma lists and `a-b` ranges, or
/// `all`/`*`) into a sorted, de-duplicated port list. Returns `None` on a
/// malformed spec.
pub fn parse_ports(spec: &str) -> (r: Option<Vec<u16>>)
    ensures
        match r {
            Some(ports) => is_port_list(spec@, ports@),
            None => !is_port_union(spec@),
        },
{
    let chars = text::chars_of(spec);
    let n: usize = chars.len();
    if (n == 3 && chars[0] == 'a' && chars[1] == 'l' && chars[2] == 'l') || (n == 1 && chars[0]
        == '*') {
        assert(spec@ =~= seq!['a', 'l', 'l'] || spec@ =~= seq!['*']);
        let every: Vec<bool> = vec![true; 65536];
        let ports = marked(&every);
        assert(ports@.contains(0u16));
        return Some(ports);
    }
    assert(!means_all(spec@));
    let ghost parts = text::split(spec@, ',');
    let ghost mut done = Seq::<Seq<char>>::empty();
    let mut present: Vec<bool> = vec![false; 65536];
    let mut start: usize = 0;
    let mut more: bool = true;
    assert(spec@.skip(0) =~= spec@);
    assert(done + parts =~= parts);
    while more
        invariant
            n == chars@.len() == spec@.len(),
            chars@ == spec@,
            parts == text::split(spec@, ','),
            !means_all(spec@),
            start <= n,
            present@.len() == 65536,
            more ==> parts == done + text::split(spec@.skip(start as int), ','),
            !more ==> parts == done,
            forall|i: int| 0 <= i < done.len() ==> port_range(#[trigger] done[i]) is Some,
            forall|p: u16| (#[trigger] present@[p as int]) <==> covered(done, p as int),
        decreases n - start + if more { 1int } else { 0int },
    {
        let rest = vstd::slice::slice_subrange(chars.as_slice(), start, n);
        assert(rest@ =~= spec@.skip(start as int));
        let len: usize = text::find_char(rest, ',');
        let part = vstd::slice::slice_subrange(rest, 0, len);
        let ghost before = done;
        proof {
            assert(part@ =~= rest@.take(len as int));
            assert(rest@.take(rest@.len() as int) =~= rest@);
            done = before.push(part@);
            if len < rest@.len() {
                assert(rest@.skip(len + 1) =~= spec@.skip(start + len + 1));
                assert(parts =~= done + text::split(spec@.skip(start + len + 1), ','));
            } else {
                assert(parts =~= done);
            }
            assert(parts[before.len() as int] == part@);
        }
        let (low, high): (u16, u16) = match parse_range(part) {
            Some(r) => r,
            None => {
                return None;
            },
        };
        let ghost marks = present@;
        let mut p: usize = low as usize;
        while p <= high as usize
            invariant
                low <= p <= high + 1,
                low <= high,
                present@.len() == marks.len() == 65536,
                forall|q: int|
                    0 <= q < 65536 ==> (#[trigger] present@[q]) == (marks[q] || low <= q < p),
            decreases high + 1 - p,
        {
            present[p] = true;
            p += 1;
        }
        proof {
            assert forall|q: u16| (#[trigger] present@[q as int]) <==> covered(done, q as int) by {
                assert(marks[q as int] <==> covered(before, q as int));
                if covered(before, q as int) {
                    let i = choose|i: int|
                        0 <= i < before.len() && covers(#[trigger] before[i], q as int);
                    assert(done[i] == before[i]);
                }
                if low <= q <= high {
                    assert(port_range(done[before.len() as int]) == Some((low as nat, high as nat)));
                }
                if covered(done, q as int) && !(low <= q <= high) {
                    let i = choose|i: int|
                        0 <= i < done.len() && covers(#[trigger] done[i], q as int);
                    assert(i < before.len());
                    assert(done[i] == before[i]);
                }
            }
        }
        if len < rest.len() {
            start = start + len + 1;
        } else {
            more = false;
        }
    }
    let ports = marked(&present);
    proof {
        lemma_split_not_empty(spec@, ',');
        assert(port_range(parts[0]) is Some);
        let (a, b) = port_range(parts[0])->0;
        assert(covered(parts, (a as u16) as int));
        assert(ports@.contains(a as u16));
    }
    Some(ports)
}

/// A port is a decimal number of at most 65535, with white space around it or not.
pub proof fn law_port(a: Seq<char>, digits: Seq<char>, b: Seq<char>)
    requires
        forall|i: int| 0 <= i < a.len() ==> text::is_white_space(#[trigger] a[i]),
        forall|i: int| 0 <= i < b.len() ==> text::is_white_space(#[trigger] b[i]),
        digits.len() > 0 ==> !text::is_white_space(digits.first()) && !text::is_white_space(
            digits.last(),
        ),
    ensures
        port(a + digits + b) == port(digits),
        port(digits) == match text::decimal(digits) {
            Some(n) => if n <= 65535 {
                Some(n)
            } else {
                None
            },
            None => None,
        },
{
    text::law_trimmed(a, digits, b);
    let none = Seq::<char>::empty();
    text::law_trimmed(none, digits, none);
    assert(none + digits + none =~= digits);
}

/// Two ports with a dash between them are a range from the lower to the higher, whichever comes
/// first; one port is a range of its own.
pub proof fn law_port_range(a: Seq<char>, b: Seq<char>)
    requires
        !a.contains('-'),
    ensures
        match (port(a), port(b)) {
            (Some(x), Some(y)) => port_range(a + seq!['-'] + b) matches Some((low, high)) && low
                <= high && ((low == x && high == y) || (low == y && high == x)),
            _ => port_range(a + seq!['-'] + b) is None,
        },
        match port(a) {
            Some(x) => port_range(a) == Some((x, x)),
            None => port_range(a) is None,
        },
{
    let part = a + seq!['-'] + b;
    text::law_find(a, '-', b);
    assert(part.take(a.len() as int) =~= a);
    assert(part.skip((a.len() + 1) as int) =~= b);
}

proof fn lemma_split_concat(s: Seq<char>, c: char, t: Seq<char>)
    ensures
        text::split(s + seq![c] + t, c) == text::split(s, c) + text::split(t, c),
    decreases s.len(),
{
    let i = text::find(s, c);
    text::lemma_find(s, c);
    if i < s.len() {
        let a = s.take(i);
        let b = s.skip(i + 1);
        assert forall|x: char| a.contains(x) implies x != c by {
            let j = a.index_of(x);
            assert(s[j] == x);
        }
        assert(s =~= a + seq![c] + b);
        text::law_split(a, c, b);
        text::law_split(a, c, b + seq![c] + t);
        assert(s + seq![c] + t =~= a + seq![c] + (b + seq![c] + t));
        lemma_split_concat(b, c, t);
        assert(seq![a] + (text::split(b, c) + text::split(t, c)) =~= (seq![a] + text::split(b, c))
            + text::split(t, c));
    } else {
        assert forall|x: char| s.contains(x) implies x != c by {
            let j = s.index_of(x);
            assert(s[j] == x);
        }
        text::law_split(s, c, t);
    }
}

/// One part that asks for something else than every port is a port union if it is a port or a
/// range, and holds the ports in between, both ends among them.
pub proof fn law_single_part(part: Seq<char>, p: u16)
    requires
        !part.contains(','),
        part != seq!['a', 'l', 'l'],
        part != seq!['*'],
    ensures
        match port_range(part) {
            Some((low, high)) => is_port_union(part) && (in_port_union(part, p) <==> low <= p
                <= high),
            None => !is_port_union(part) && !in_port_union(part, p),
        },
{
    text::law_split(part, ',', Seq::empty());
    let parts = text::split(part, ',');
    assert(parts[0] == part);
    if port_range(part) is Some {
        assert forall|i: int| 0 <= i < parts.len() implies port_range(
            #[trigger] parts[i],
        ) is Some by {}
        if covers(part, p as int) {
            assert(covered(parts, p as int));
        }
    }
}

/// A comma joins port unions: the whole is one exactly if both sides are, and holds the ports
/// that one side or the other holds. (The words for every port stand alone.)
pub proof fn law_comma_joins(s: Seq<char>, t: Seq<char>, p: u16)
    requires
        s != seq!['a', 'l', 'l'] && s != seq!['*'],
        t != seq!['a', 'l', 'l'] && t != seq!['*'],
    ensures
        is_port_union(s + seq![','] + t) <==> is_port_union(s) && is_port_union(t),
        in_port_union(s + seq![','] + t, p) <==> in_port_union(s, p) || in_port_union(t, p),
{
    let whole = s + seq![','] + t;
    assert(whole[s.len() as int] == ',');
    assert(!means_all(whole)) by {
        let all = seq!['a', 'l', 'l'];
        let star = seq!['*'];
        let k = s.len() as int;
        assert(k < whole.len());
        if whole == all {
            assert(k == 0 || k == 1 || k == 2);
            assert(all[0] != ',' && all[1] != ',' && all[2] != ',');
        }
        if whole == star {
            assert(k == 0);
            assert(star[0] != ',');
        }
    }
    lemma_split_concat(s, ',', t);
    let left = text::split(s, ',');
    let right = text::split(t, ',');
    let parts = text::split(whole, ',');
    assert(forall|i: int| 0 <= i < left.len() ==> parts[i] == #[trigger] left[i]);
    assert(forall|i: int|
        0 <= i < right.len() ==> parts[left.len() + i] == #[trigger] right[i]);
    if is_port_union(s) && is_port_union(t) {
        assert forall|i: int| 0 <= i < parts.len() implies port_range(
            #[trigger] parts[i],
        ) is Some by {
            if i < left.len() {
                assert(parts[i] == left[i]);
            } else {
                assert(parts[i] == right[i - left.len()]);
            }
        }
    }
    if is_port_union(whole) {
        assert forall|i: int| 0 <= i < left.len() implies port_range(
            #[trigger] left[i],
        ) is Some by {
            assert(port_range(parts[i]) is Some);
        }
        assert forall|i: int| 0 <= i < right.len() implies port_range(
            #[trigger] right[i],
        ) is Some by {
            assert(port_range(parts[left.len() + i]) is Some);
        }
    }
    let q = p as int;
    if covered(parts, q) {
        let i = choose|i: int| 0 <= i < parts.len() && covers(#[trigger] parts[i], q);
        if i < left.len() {
            assert(covers(left[i], q));
        } else {
            assert(parts[i] == right[i - left.len()]);
            assert(covers(right[i - left.len()], q));
        }
    }
    if covered(left, q) {
        let i = choose|i: int| 0 <= i < left.len() && covers(#[trigger] left[i], q);
        assert(covers(parts[i], q));
    }
    if covered(right, q) {
        let i = choose|i: int| 0 <= i < right.len() && covers(#[trigger] right[i], q);
        assert(covers(parts[left.len() + i], q));
    }
}

/// A word for every port is no part of a longer union.
pub proof fn law_every_port_stands_alone(t: Seq<char>, p: u16)
    ensures
        is_port_union(seq!['*']) && in_port_union(seq!['*'], p),
        is_port_union(seq!['a', 'l', 'l']) && in_port_union(seq!['a', 'l', 'l'], p),
        !is_port_union(seq!['*'] + seq![','] + t),
        !is_port_union(seq!['a', 'l', 'l'] + seq![','] + t),
        !is_port_union(t + seq![','] + seq!['*']),
        !is_port_union(t + seq![','] + seq!['a', 'l', 'l']),
{
    let star = seq!['*'];
    let all = seq!['a', 'l', 'l'];
    let none = Seq::<char>::empty();
    assert(!star.contains(',') && !star.contains('-'));
    assert(!all.contains(',') && !all.contains('-'));
    law_port_range(star, none);
    law_port_range(all, none);
    text::law_trimmed(none, star, none);
    text::law_trimmed(none, all, none);
    assert(none + star + none =~= star);
    assert(none + all + none =~= all);
    text::law_decimal(star, 65535);
    text::law_decimal(all, 65535);
    assert(!('0' <= star[0] <= '9') && !('0' <= all[0] <= '9'));
    assert(port_range(star) is None && port_range(all) is None);
    text::law_split(star, ',', t);
    text::law_split(all, ',', t);
    let a = star + seq![','] + t;
    let b = all + seq![','] + t;
    assert(text::split(a, ',')[0] == star);
    assert(text::split(b, ',')[0] == all);
    assert(a[1] == ',' && b[3] == ',');
    let c = t + seq![','] + star;
    let d = t + seq![','] + all;
    lemma_split_concat(t, ',', star);
    lemma_split_concat(t, ',', all);
    let k = text::split(t, ',').len() as int;
    assert(text::split(c, ',')[k] == star);
    assert(text::split(d, ',')[k] == all);
    assert(c[t.len() as int] == ',' && d[t.len() as int] == ',');
    assert(!all.contains(c[t.len() as int]) && !star.contains(d[t.len() as int]));
    assert(c.last() == '*' && c.len() > 1 && d.len() > 3);
}

/// A port list is in ascending order, holds each port of the union once and no others, and is
/// not empty.
pub proof fn law_port_list(spec: Seq<char>, ports: Seq<u16>)
    ensures
        is_port_list(spec, ports) <==> {
            &&& is_port_union(spec)
            &&& forall|i: int, j: int| 0 <= i < j < ports.len() ==> ports[i] < ports[j]
            &&& forall|p: u16| ports.contains(p) <==> in_port_union(spec, p)
            &&& ports.len() > 0
        },
{
}

} // verus!
