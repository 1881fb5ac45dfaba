use bytes::Bytes;
use rsteria2::defrag::Defragger;
use rsteria2::fragment::{frag_udp_message, fragment_count};
use rsteria2::udp::{DatagramOutcome, Onward, Sending, UdpSession, UdpSessionManager};
use rsteria2::udp_message::UdpMessage;
use rsteria2::Error;

fn msg(data: &[u8], frag_id: u8, frag_count: u8, packet_id: u16) -> UdpMessage {
    UdpMessage {
        session_id: 0xDEADBEEF,
        packet_id,
        frag_id,
        frag_count,
        addr: "example.com:53".into(),
        data: data.to_vec(),
    }
}

fn protocol_error(e: Error) -> String {
    match e {
        Error::Protocol(s) => s,
        other => panic!("not a protocol error: {:?}", other),
    }
}

#[test]
fn udp_message_roundtrip() {
    let m = msg(b"hello world", 0, 1, 0);
    let mut buf = vec![0u8; m.size()];
    let n = m.serialize(&mut buf).unwrap();
    assert_eq!(n, m.size());
    let parsed = UdpMessage::parse(&buf[..n]).unwrap();
    assert_eq!(parsed.session_id, m.session_id);
    assert_eq!(parsed.addr, m.addr);
    assert_eq!(parsed.data, m.data);
}

#[test]
fn udp_message_rejects_truncated_and_empty_data() {
    // No payload after the address is invalid.
    let m = msg(b"", 0, 1, 0);
    let mut buf = vec![0u8; m.size() + 1];
    let n = m.serialize(&mut buf).unwrap();
    assert!(UdpMessage::parse(&buf[..n]).is_none());
    // Truncated header.
    assert!(UdpMessage::parse(&[0u8; 4]).is_none());
}

#[test]
fn frag_then_defrag_reassembles() {
    let payload: Vec<u8> = (0..1000u32).map(|i| i as u8).collect();
    let m = msg(&payload, 0, 1, 7);
    // Force fragmentation with a small max size.
    let frags = frag_udp_message(&m, m.header_size() + 100);
    assert!(frags.len() > 1);
    assert!(frags.iter().all(|f| f.frag_count as usize == frags.len()));

    let mut d = Defragger::default();
    let mut out = None;
    for f in frags {
        if let Some(full) = d.feed(f) {
            out = Some(full);
        }
    }
    let full = out.expect("reassembled");
    assert_eq!(full.data, payload);
    assert_eq!(full.frag_count, 1);
}

#[test]
fn defrag_passes_through_unfragmented() {
    let m = msg(b"single", 0, 1, 0);
    let mut d = Defragger::default();
    let out = d.feed(m).unwrap();
    assert_eq!(out.data, b"single");
}

#[test]
fn defrag_new_packet_id_resets_state() {
    let p1: Vec<u8> = vec![1; 300];
    let m1 = msg(&p1, 0, 2, 1); // only first frag of packet 1
    let p2: Vec<u8> = vec![2; 200];
    let f2 = frag_udp_message(&msg(&p2, 0, 1, 2), msg(&p2, 0, 1, 2).header_size() + 50);

    let mut d = Defragger::default();
    assert!(d.feed(m1).is_none());
    // A different packet arrives; previous partial state is dropped.
    let mut out = None;
    for f in f2 {
        if let Some(full) = d.feed(f) {
            out = Some(full);
        }
    }
    assert_eq!(out.unwrap().data, p2);
}

#[test]
fn message_layout() {
    let m = UdpMessage {
        session_id: 0x01020304,
        packet_id: 0x0506,
        frag_id: 7,
        frag_count: 8,
        addr: "a:1".into(),
        data: b"xy".to_vec(),
    };
    assert_eq!(m.header_size(), 12);
    assert_eq!(m.size(), 14);
    let mut buf = [0xffu8; 15];
    assert_eq!(m.serialize(&mut buf), Some(14));
    assert_eq!(&buf[..], &b"\x01\x02\x03\x04\x05\x06\x07\x08\x03a:1xy\xff"[..]);
    let mut small = [0xffu8; 13];
    assert_eq!(m.serialize(&mut small), None);
    assert_eq!(small, [0xff; 13]);
}

#[test]
fn messages_that_do_not_parse() {
    let head = [0u8, 0, 0, 1, 0, 0, 0, 1];
    let with = |tail: &[u8]| [&head[..], tail].concat();
    // No address length, an empty address, a cut address, no data, bad text.
    assert!(UdpMessage::parse(&head).is_none());
    assert!(UdpMessage::parse(&with(&[0, 1])).is_none());
    assert!(UdpMessage::parse(&with(b"\x03ab")).is_none());
    assert!(UdpMessage::parse(&with(b"\x03abc")).is_none());
    assert!(UdpMessage::parse(&with(b"\x02\xff\xfeX")).is_none());
    // The longest address, and one byte more.
    let mut long = with(&[0x48, 0x00]);
    long.extend(vec![b'a'; 2048]);
    long.push(1);
    assert_eq!(UdpMessage::parse(&long).unwrap().addr.len(), 2048);
    let mut longer = with(&[0x48, 0x01]);
    longer.extend(vec![b'a'; 2049]);
    longer.push(1);
    assert!(UdpMessage::parse(&longer).is_none());
}

#[test]
fn text_of_an_address_is_decoded() {
    let mut buf = [0u8; 64];
    let mut m = msg(b"x", 0, 1, 0);
    m.addr = "bücher.example:53".into();
    let n = m.serialize(&mut buf).unwrap();
    let back = UdpMessage::parse(&buf[..n]).unwrap();
    assert_eq!(back.addr, "bücher.example:53");
    assert_eq!(back.clone().data, b"x");
}

#[test]
fn fragments_fit_and_carry_everything() {
    let m = msg(&[5; 250], 0, 1, 9);
    let max = m.header_size() + 100;
    assert_eq!(fragment_count(&m, max), 3);
    let frags = frag_udp_message(&m, max);
    let lens: Vec<usize> = frags.iter().map(|f| f.data.len()).collect();
    assert_eq!(lens, vec![100, 100, 50]);
    for (i, f) in frags.iter().enumerate() {
        assert!(f.size() <= max);
        assert_eq!((f.frag_id as usize, f.frag_count), (i, 3));
        assert_eq!((f.packet_id, f.session_id), (9, 0xDEADBEEF));
    }
    // It fits as it is, or not even the header does.
    assert_eq!(fragment_count(&m, m.size()), 1);
    assert_eq!(frag_udp_message(&m, m.size()).len(), 1);
    assert_eq!(frag_udp_message(&m, m.size())[0].data.len(), 250);
    assert_eq!(fragment_count(&m, m.header_size()), 0);
    assert!(frag_udp_message(&m, m.header_size()).is_empty());
    assert!(frag_udp_message(&m, 0).is_empty());
    // As many as there can be, and too many.
    let big = msg(&[1; 255], 0, 1, 9);
    assert_eq!(frag_udp_message(&big, big.header_size() + 1).len(), 255);
    let bigger = msg(&[1; 256], 0, 1, 9);
    assert_eq!(fragment_count(&bigger, bigger.header_size() + 1), 256);
}

#[test]
fn fragments_reassemble_in_any_order() {
    let payload: Vec<u8> = (0..40).collect();
    let m = msg(&payload, 0, 1, 3);
    let frags = frag_udp_message(&m, m.header_size() + 15);
    for order in [[0, 1, 2], [2, 1, 0], [1, 2, 0], [0, 2, 1]] {
        let mut d = Defragger::default();
        assert!(d.feed(frags[order[0]].clone()).is_none());
        // A duplicate changes nothing.
        assert!(d.feed(frags[order[0]].clone()).is_none());
        assert!(d.feed(frags[order[1]].clone()).is_none());
        let full = d.feed(frags[order[2]].clone()).unwrap();
        assert_eq!(full.data, payload);
        assert_eq!((full.frag_id, full.frag_count, full.packet_id), (0, 1, 3));
        assert_eq!(full.addr, m.addr);
    }
}

#[test]
fn defrag_ignores_impossible_fragments() {
    let mut d = Defragger::default();
    assert!(d.feed(msg(b"a", 2, 2, 1)).is_none());
    assert!(d.feed(msg(b"b", 0, 2, 1)).is_none());
    assert_eq!(d.feed(msg(b"c", 1, 2, 1)).unwrap().data, b"bc");
    // A count of 0 is taken for an unfragmented message.
    assert_eq!(d.feed(msg(b"z", 5, 0, 1)).unwrap().data, b"z");
}

fn session() -> UdpSession {
    UdpSessionManager::new().new_session(())
}

fn whole(s: &UdpSession, data: &[u8], addr: &str) -> Bytes {
    s.send(data, addr).next().unwrap()
}

fn too_large() -> DatagramOutcome {
    DatagramOutcome::TooLarge("datagram too large".into())
}

/// The fragments that `sending` goes on with when its first datagram is too large.
fn fragmented(mut sending: Sending, packet_id: u16, max: Option<usize>) -> Vec<Bytes> {
    sending.next().unwrap();
    let onward = sending.on_outcome_with(too_large(), packet_id, max);
    assert!(matches!(onward, Ok(Onward::Next)));
    let mut parts = Vec::new();
    while let Some(part) = sending.next() {
        parts.push(part);
        let onward = sending.on_outcome_with(DatagramOutcome::Sent, 0, max);
        assert!(matches!(onward, Ok(Onward::Next)));
    }
    parts
}

#[test]
fn sessions_are_numbered_from_one() {
    let mut m: UdpSessionManager<&str> = UdpSessionManager::new();
    let a = m.new_session("a");
    let b = m.new_session("b");
    assert_eq!((a.id(), b.id()), (1, 2));
    let d = whole(&b, b"ping", "x:1");
    let (tx, got) = m.route(&d).unwrap();
    assert_eq!(*tx, "b");
    assert_eq!(got.data, b"ping");
    assert_eq!(m.dispatch(&got).copied(), Some("b"));
    m.remove(2);
    assert!(m.route(&d).is_none());
    assert!(m.route(b"junk").is_none());
    assert_eq!(m.new_session("c").id(), 3);
}

#[test]
fn unfragmented_if_possible() {
    let s = session();
    let mut sending = s.send(b"hi", "a:1");
    let d = sending.next().unwrap();
    assert_eq!(&d[..], &b"\x00\x00\x00\x01\x00\x00\x00\x01\x03a:1hi"[..]);
    assert!(matches!(
        sending.on_outcome(DatagramOutcome::Sent, None),
        Ok(Onward::Next)
    ));
    assert!(sending.next().is_none());
    // Beyond the usual buffer.
    assert_eq!(whole(&s, &[7u8; 5000], "a:1").len(), 5012);
}

#[test]
fn fragmented_datagrams() {
    let s = session();
    let data: Vec<u8> = (0..3000u32).map(|i| i as u8).collect();
    let parts = fragmented(s.send(&data, "a:1"), 77, None);
    assert_eq!(parts.len(), 3);
    assert!(parts.iter().all(|p| p.len() <= 1200));
    let mut got = Vec::new();
    for p in &parts {
        let f = UdpMessage::parse(p).unwrap();
        assert_eq!((f.packet_id, f.frag_count), (77, 3));
        got.extend(f.data);
    }
    assert_eq!(got, data);
    assert_eq!(fragmented(s.send(&data, "a:1"), 1, Some(4096)).len(), 1);
    assert_eq!(fragmented(s.send(&data, "a:1"), 1, Some(12)).len(), 0);
    let mut sending = s.send(&data, "a:1");
    sending.next();
    assert!(matches!(
        sending.on_outcome_with(too_large(), 1, Some(13)),
        Ok(Onward::TooManyFragments)
    ));
}

#[test]
fn packet_ids_are_random_and_not_zero() {
    let s = session();
    let ids: Vec<u16> = (0..100)
        .map(|_| {
            let mut sending = s.send(&[1; 2000], "a:1");
            sending.next();
            sending.on_outcome(too_large(), Some(1200)).unwrap();
            let one = sending.next().unwrap();
            let two = sending.next().unwrap();
            let id = UdpMessage::parse(&one).unwrap().packet_id;
            assert_eq!(id, UdpMessage::parse(&two).unwrap().packet_id);
            id
        })
        .collect();
    assert!(ids.iter().all(|&id| id != 0));
    assert!(ids.iter().any(|&id| id != ids[0]));
}

#[test]
fn failures_of_sending() {
    let s = session();
    let gone = || DatagramOutcome::Failed("gone".into());
    let mut sending = s.send(&[1; 2000], "a:1");
    sending.next();
    let e = sending.on_outcome(gone(), None).unwrap_err();
    assert_eq!(protocol_error(e), "send datagram: gone");
    sending.on_outcome(too_large(), None).unwrap();
    sending.next();
    let e = sending.on_outcome(gone(), None).unwrap_err();
    assert_eq!(protocol_error(e), "send fragment: gone");
    let e = sending.on_outcome(too_large(), None).unwrap_err();
    assert_eq!(protocol_error(e), "send fragment: datagram too large");
}

#[test]
fn session_reassembles_what_was_sent() {
    let mut m: UdpSessionManager<()> = UdpSessionManager::new();
    let mut s = m.new_session(());
    let data: Vec<u8> = (0..2500u32).map(|i| (i * 7) as u8).collect();
    let parts = fragmented(s.send(&data, "peer:9"), 5, None);
    let mut left = parts.len();
    for p in parts.iter().rev() {
        left -= 1;
        let (_, f) = m.route(p).unwrap();
        match s.recv(Some(f)).unwrap() {
            None => assert!(left > 0),
            Some((d, addr)) => {
                assert_eq!(left, 0);
                assert_eq!(d, data);
                assert_eq!(addr, "peer:9");
            }
        }
    }
    // An unfragmented one comes through at once.
    let (_, f) = m.route(&whole(&s, b"one", "q:1")).unwrap();
    let (d, addr) = s.recv(Some(f)).unwrap().unwrap();
    assert_eq!((&d[..], addr.as_str()), (&b"one"[..], "q:1"));
    let e = s.recv(None).unwrap_err();
    assert_eq!(protocol_error(e), "udp session closed");
}

#[test]
fn what_parses_parses_again() {
    let datagram = b"\x00\x00\x00\x02\x00\x09\x01\x03\x40\x03a:1payload";
    let m = UdpMessage::parse(datagram).unwrap();
    // The address length was written longer than it needs to be.
    assert_eq!(m.size(), datagram.len() - 1);
    let mut buf = vec![0u8; m.size()];
    m.serialize(&mut buf).unwrap();
    let again = UdpMessage::parse(&buf).unwrap();
    assert_eq!((again.session_id, again.packet_id), (2, 9));
    assert_eq!((again.frag_id, again.frag_count), (1, 3));
    assert_eq!((again.addr, again.data), (m.addr, m.data));
}

#[test]
fn the_first_copy_of_a_fragment_counts() {
    let mut d = Defragger::default();
    assert!(d.feed(msg(b"one", 0, 2, 4)).is_none());
    assert!(d.feed(msg(b"ONE", 0, 2, 4)).is_none());
    assert_eq!(d.feed(msg(b"two", 1, 2, 4)).unwrap().data, b"onetwo");
    // Late duplicates of all of it give nothing any more.
    for _ in 0..3 {
        assert!(d.feed(msg(b"one", 0, 2, 4)).is_none());
        assert!(d.feed(msg(b"two", 1, 2, 4)).is_none());
    }
}

#[test]
fn messages_that_no_receiver_takes() {
    let mut m = msg(b"x", 0, 1, 0);
    m.addr = String::new();
    let mut buf = vec![0u8; 4000];
    let n = m.serialize(&mut buf).unwrap();
    assert!(UdpMessage::parse(&buf[..n]).is_none());
    m.addr = "a".repeat(2049);
    let n = m.serialize(&mut buf).unwrap();
    assert!(UdpMessage::parse(&buf[..n]).is_none());
    m.addr = "a".repeat(2048);
    let n = m.serialize(&mut buf).unwrap();
    assert_eq!(UdpMessage::parse(&buf[..n]).unwrap().addr, m.addr);
}

#[test]
fn what_a_connection_takes_arrives() {
    let s = session();
    let data: Vec<u8> = (0..900u32).map(|i| (i / 3) as u8).collect();
    for limit in [13usize, 100, 500, 911, 912, 5000] {
        let mut sending = s.send(&data, "a:1");
        let mut taken = Vec::new();
        let mut too_many = false;
        while let Some(d) = sending.next() {
            let outcome = if d.len() <= limit {
                taken.push(d);
                DatagramOutcome::Sent
            } else {
                too_large()
            };
            match sending.on_outcome(outcome, Some(limit)).unwrap() {
                Onward::Next => {}
                Onward::TooManyFragments => {
                    too_many = true;
                    break;
                }
            }
        }
        assert_eq!(too_many, limit == 13);
        if too_many {
            continue;
        }
        assert_eq!(taken.len() == 1, limit >= 912);
        let mut receiver = Defragger::default();
        for (i, d) in taken.iter().enumerate() {
            let f = UdpMessage::parse(d).unwrap();
            assert_eq!(f.session_id, s.id());
            assert_eq!(f.packet_id == 0, limit >= 912);
            match receiver.feed(f) {
                Some(full) => {
                    assert_eq!(i, taken.len() - 1);
                    assert_eq!((full.data, full.addr.as_str()), (data.clone(), "a:1"));
                }
                None => assert!(i < taken.len() - 1),
            }
        }
    }
}
