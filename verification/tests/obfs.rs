use rsteria2::addr::SocketAddress;
use rsteria2::obfs::{mask, unmask, Salamander};
use rsteria2::socket::{
    Arrival, HopConfig, Incoming, ObfsHopSocket, Outgoing, SCRATCH_DATAGRAM,
};
use rsteria2::time::TimeSpan;

#[test]
fn roundtrip() {
    let s = Salamander::new(b"my-secret-key").unwrap();
    let plain = b"the quick brown fox jumps over the lazy dog";
    let mut obf = vec![0u8; plain.len() + 8];
    let n = s.obfuscate(plain, &mut obf);
    assert_eq!(n, plain.len() + 8);
    // Ciphertext differs from plaintext (salt + XOR).
    assert_ne!(&obf[8..], &plain[..]);

    let mut out = vec![0u8; plain.len()];
    let m = s.deobfuscate(&obf[..n], &mut out);
    assert_eq!(m, plain.len());
    assert_eq!(&out[..m], plain);
}

#[test]
fn rejects_short_psk() {
    assert!(Salamander::new(b"abc").is_none());
    assert!(Salamander::new(b"abcd").is_some());
}

#[test]
fn deobfuscate_rejects_runt() {
    let s = Salamander::new(b"key1").unwrap();
    let mut out = [0u8; 16];
    assert_eq!(s.deobfuscate(&[0u8; 8], &mut out), 0);
    assert_eq!(s.deobfuscate(&[], &mut out), 0);
}

/// BLAKE2b-256 of `my-secret-key` followed by the bytes 0 to 7.
const KEY: [u8; 32] = [
    0x17, 0x45, 0xfc, 0xc5, 0xac, 0x83, 0x67, 0x19, 0x6b, 0xb2, 0x05, 0x85, 0xa0, 0x49, 0x87, 0x32,
    0x4f, 0x5a, 0x6a, 0x25, 0x61, 0x18, 0xd7, 0x89, 0xd3, 0x82, 0x0b, 0x87, 0x49, 0x12, 0x90, 0x6f,
];

const SALT: [u8; 8] = [0, 1, 2, 3, 4, 5, 6, 7];

#[test]
fn key_is_the_digest_of_psk_and_salt() {
    let s = Salamander::new(b"my-secret-key").unwrap();
    assert_eq!(s.key(&SALT), KEY);
    assert_eq!(s.clone().key(&SALT), KEY);
}

#[test]
fn key_repeats_over_the_payload() {
    let s = Salamander::new(b"my-secret-key").unwrap();
    let mut out = [0xaau8; 50];
    assert_eq!(s.obfuscate_with(SALT, &[0xff; 40], &mut out), 48);
    assert_eq!(out[..8], SALT);
    for i in 0..40 {
        assert_eq!(out[8 + i], 0xff ^ KEY[i % 32]);
    }
    assert_eq!(out[48..], [0xaa; 2]);
}

#[test]
fn masking_with_a_given_key() {
    let key = [1u8; 32];
    let mut out = [9u8; 12];
    assert_eq!(mask(&key, &SALT, &[4, 5, 6], &mut out), 11);
    assert_eq!(out, [0, 1, 2, 3, 4, 5, 6, 7, 5, 4, 7, 9]);
    let mut back = [9u8; 4];
    assert_eq!(unmask(&key, &out[..11], &mut back), 3);
    assert_eq!(back, [4, 5, 6, 9]);
    // Too little room either way.
    assert_eq!(mask(&key, &SALT, &[4, 5, 6], &mut [0; 10]), 0);
    assert_eq!(unmask(&key, &out, &mut [0; 3]), 0);
}

#[test]
fn salts_are_random() {
    let s = Salamander::new(b"my-secret-key").unwrap();
    let mut a = [0u8; 9];
    let mut b = [0u8; 9];
    assert_eq!(s.obfuscate(&[1], &mut a), 9);
    assert_eq!(s.obfuscate(&[1], &mut b), 9);
    assert_ne!(a[..8], [0u8; 8]);
    assert_ne!(a[..8], b[..8]);
}

#[test]
fn obfuscate_needs_room() {
    let s = Salamander::new(b"my-secret-key").unwrap();
    let mut out = [3u8; 9];
    assert_eq!(s.obfuscate(&[1, 2], &mut out), 0);
    assert_eq!(out, [3; 9]);
    assert_eq!(s.deobfuscate(&[0; 11], &mut out[..2]), 0);
}

fn v4(port: u16) -> SocketAddress {
    SocketAddress::V4 {
        ip: [192, 0, 2, 1],
        port,
    }
}

fn hop(ports: &[u16], min: u64, max: u64) -> HopConfig {
    HopConfig {
        addrs: ports.iter().map(|&p| v4(p)).collect(),
        interval_min: TimeSpan::from_secs(min),
        interval_max: TimeSpan::from_secs(max),
    }
}

fn delivered(r: Incoming) -> Vec<Arrival> {
    match r {
        Incoming::Deliver(v) => v,
        Incoming::ReceiveAgain => panic!("nothing to deliver"),
    }
}

#[test]
fn socket_without_features_is_none() {
    assert!(ObfsHopSocket::new(v4(1), None, None).is_none());
}

#[test]
fn hopping_redirects_and_hides() {
    let s = ObfsHopSocket::new(v4(1), None, Some(hop(&[1, 2, 3], 30, 30))).unwrap();
    assert!(s.is_hopping() && !s.is_obfuscated());
    assert_eq!(s.canonical(), v4(1));
    assert_eq!(s.current_dest(0), v4(1));
    assert_eq!(s.current_dest(5), v4(3));
    assert_eq!(s.source_address(v4(3)), v4(1));
    let o = s.outgoing(4, v4(1), b"x", &mut []);
    assert!(matches!(o, Outgoing::Plain { destination } if destination == v4(2)));
    assert_eq!((s.max_transmit_segments(8), s.max_receive_segments(9)), (8, 9));
    let drawn: Vec<usize> = (0..200).map(|_| s.draw_index().unwrap()).collect();
    assert!(drawn.iter().all(|&i| i < 3));
    assert!((0..3).all(|i| drawn.contains(&i)));
}

#[test]
fn a_single_port_does_not_rotate() {
    let s = ObfsHopSocket::new(v4(1), None, Some(hop(&[7], 30, 30))).unwrap();
    assert!(!s.is_hopping());
    assert_eq!(s.draw_index(), None);
    assert_eq!(s.current_dest(3), v4(1));
    assert_eq!(s.source_address(v4(9)), v4(9));
    let o = s.outgoing(0, v4(5), b"x", &mut []);
    assert!(matches!(o, Outgoing::Plain { destination } if destination == v4(5)));
}

#[test]
fn waits_keep_to_the_interval() {
    let h = hop(&[1, 2], 10, 12);
    assert_eq!(h.most_extra_millis(), 2000);
    assert_eq!(h.wait_with(0), TimeSpan::from_secs(10));
    assert_eq!(h.wait_with(2000), TimeSpan::from_secs(12));
    for _ in 0..100 {
        let w = h.draw_wait().as_nanos();
        assert!((10_000_000_000..=12_000_000_000).contains(&w));
    }
    let fixed = hop(&[1, 2], 10, 10);
    assert_eq!(fixed.most_extra_millis(), 0);
    assert_eq!(fixed.draw_wait(), TimeSpan::from_secs(10));
    assert_eq!(hop(&[1, 2], 10, 3).draw_wait(), TimeSpan::from_secs(10));
}

#[test]
fn the_extra_wait_is_cut_to_64_bits() {
    let h = hop(&[1, 2], 0, u64::MAX);
    let millis = (u64::MAX as u128) * 1000;
    assert_eq!(h.most_extra_millis(), millis as u64);
}

#[test]
fn masked_packets_go_out_and_come_in() {
    let key = Salamander::new(b"my-secret-key");
    let s = ObfsHopSocket::new(v4(1), key, None).unwrap();
    assert!(s.is_obfuscated() && !s.is_hopping());
    assert_eq!((s.max_transmit_segments(8), s.max_receive_segments(9)), (1, 1));
    let mut scratch = vec![0u8; 3 * SCRATCH_DATAGRAM];
    let mut lens = Vec::new();
    for (k, text) in [&b"first"[..], &b""[..], &b"third"[..]].iter().enumerate() {
        let at = &mut scratch[k * SCRATCH_DATAGRAM..(k + 1) * SCRATCH_DATAGRAM];
        match s.outgoing(0, v4(5), text, at) {
            Outgoing::Masked { destination, len } => {
                assert_eq!(destination, v4(5));
                assert_eq!(len, text.len() + 8);
                lens.push(len);
            }
            _ => panic!("not masked"),
        }
    }
    let from = [v4(10), v4(11), v4(12)];
    // The empty one is dropped.
    let got = delivered(s.incoming(&scratch, &lens, &from, &[9, 9, 9]));
    assert_eq!(got.len(), 2);
    assert_eq!((got[0].index, got[1].index), (0, 2));
    assert_eq!(got[0].payload, b"first");
    assert_eq!(got[1].payload, b"third");
    assert_eq!(got[1].source, v4(12));
    // What comes out first has no room; the next one takes its place and has none either.
    assert!(matches!(
        s.incoming(&scratch, &lens, &from, &[4, 9, 9]),
        Incoming::ReceiveAgain
    ));
    assert!(matches!(
        s.incoming(&scratch, &[], &[], &[9]),
        Incoming::ReceiveAgain
    ));
}

#[test]
fn oversized_packets_are_dropped() {
    let key = Salamander::new(b"my-secret-key");
    let s = ObfsHopSocket::new(v4(1), key, Some(hop(&[1, 2], 30, 30))).unwrap();
    let mut scratch = [0u8; SCRATCH_DATAGRAM];
    let fits = [1u8; SCRATCH_DATAGRAM - 8];
    assert!(matches!(
        s.outgoing(1, v4(1), &fits, &mut scratch),
        Outgoing::Masked { destination, len: SCRATCH_DATAGRAM } if destination == v4(2)
    ));
    assert!(matches!(
        s.incoming(&scratch, &[SCRATCH_DATAGRAM], &[v4(2)], &[1500, 1500]),
        Incoming::ReceiveAgain
    ));
    let got = delivered(s.incoming(&scratch, &[SCRATCH_DATAGRAM], &[v4(2)], &[2048]));
    assert_eq!(got[0].payload, fits);
    assert_eq!(got[0].source, v4(1));
    let over = [1u8; SCRATCH_DATAGRAM - 7];
    assert!(matches!(
        s.outgoing(1, v4(1), &over, &mut scratch),
        Outgoing::Dropped
    ));
}

#[test]
fn hop_parameters_can_be_copied() {
    let h = hop(&[1, 2], 10, 12);
    let c = h.clone();
    assert_eq!(c.addrs, h.addrs);
    assert_eq!((c.interval_min, c.interval_max), (h.interval_min, h.interval_max));
}

#[test]
fn round_trip_in_small_and_large_buffers() {
    let s = Salamander::new(b"my-secret-key").unwrap();
    let t = s.clone();
    for len in [1usize, 2, 7, 31, 32, 33, 100] {
        let plain: Vec<u8> = (0..len).map(|i| i as u8).collect();
        for spare in [0usize, 3] {
            let mut obf = vec![0u8; len + 8 + spare];
            let n = s.obfuscate(&plain, &mut obf);
            let mut out = vec![0xeeu8; len + spare];
            assert_eq!(t.deobfuscate(&obf[..n], &mut out), len);
            assert_eq!(out[..len], plain[..]);
            assert!(out[len..].iter().all(|&b| b == 0xee));
        }
    }
}
