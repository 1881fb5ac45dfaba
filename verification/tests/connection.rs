use std::sync::atomic::{AtomicU64, Ordering};
use std::sync::Arc;

use rsteria2::brutal::{AckRate, SwitchableController};
use rsteria2::reconnect::Step;
use rsteria2::stream::{Establish, StreamError};
use rsteria2::time::TimeSpan;
use rsteria2::{
    Brutal, BrutalFactory, Config, DuplexStream, Error, HysteriaClient, ReconnectableClient,
};

fn protocol_error(e: Error) -> String {
    match e {
        Error::Protocol(s) => s,
        other => panic!("not a protocol error: {:?}", other),
    }
}

fn brutal(mtu: u16) -> Brutal {
    BrutalFactory {
        rate: Arc::new(AtomicU64::new(1000)),
    }
    .build(mtu)
}

const ONE: AckRate = AckRate { num: 1, den: 1 };

#[test]
fn controllers_share_the_rate() {
    let f = BrutalFactory {
        rate: Arc::new(AtomicU64::new(1000)),
    };
    let a = f.build(1200);
    let b = f.build(1200).clone();
    f.rate.store(500, Ordering::Relaxed);
    assert_eq!(a.rate().load(Ordering::Relaxed), 500);
    assert_eq!(b.rate().load(Ordering::Relaxed), 500);
}

#[test]
fn the_switch_keeps_the_rate() {
    let f = BrutalFactory {
        rate: Arc::new(AtomicU64::new(1000)),
    };
    let mut c = SwitchableController::new(f.build(1200), ());
    c.on_sent();
    c.on_ack(0, TimeSpan::from_millis(20));
    c.on_end_acks();
    c.on_congestion_event(0, 1200);
    c.on_mtu_update(1300);
    f.rate.store(77, Ordering::Relaxed);
    assert_eq!(c.brutal().rate().load(Ordering::Relaxed), 77);
}

#[test]
fn windows_have_a_floor() {
    let mut b = brutal(1200);
    assert_eq!(b.initial_window(), 10_240);
    // Nothing measured yet.
    assert_eq!(b.window(1 << 30), 10_240);
    b.on_ack(0, TimeSpan::from_millis(50));
    assert_eq!(b.srtt(), TimeSpan::from_millis(50));
    assert_eq!(b.window(1 << 30), 1 << 30);
    assert_eq!(b.window(5), 10_240);
    b.on_mtu_update(9000);
    assert_eq!(b.initial_window(), 18_000);
    assert_eq!(b.window(17_999), 18_000);
}

#[test]
fn few_samples_say_nothing() {
    let mut b = brutal(1000);
    b.record(0, 0, 49);
    assert_eq!(b.ack_rate(), ONE);
    b.record(0, 1, 0);
    assert_eq!(b.ack_rate(), AckRate { num: 4, den: 5 });
}

#[test]
fn ack_rate_is_the_share_acknowledged() {
    let mut b = brutal(1000);
    b.record(3, 90, 10);
    assert_eq!(b.ack_rate(), AckRate { num: 90, den: 100 });
    // Exactly 0.8, and just below.
    let mut c = brutal(1000);
    c.record(3, 80, 20);
    assert_eq!(c.ack_rate(), AckRate { num: 80, den: 100 });
    c.record(3, 0, 1);
    assert_eq!(c.ack_rate(), AckRate { num: 4, den: 5 });
}

#[test]
fn history_is_five_seconds() {
    let mut b = brutal(1000);
    b.record(10, 0, 100);
    for t in 11..15 {
        b.record(t, 100, 0);
    }
    // Seconds 10 to 14 count: 400 of 500.
    assert_eq!(b.ack_rate(), AckRate { num: 400, den: 500 });
    b.record(15, 100, 0);
    assert_eq!(b.ack_rate(), AckRate { num: 500, den: 500 });
    // A long silence leaves nothing.
    b.record(100, 1, 0);
    assert_eq!(b.ack_rate(), ONE);
}

#[test]
fn losses_are_counted_in_packets() {
    let mut b = brutal(1000);
    assert_eq!(b.lost_packets(0), 1);
    assert_eq!(b.lost_packets(999), 1);
    assert_eq!(b.lost_packets(2500), 2);
    b.on_mtu_update(0);
    assert_eq!(b.lost_packets(7), 7);
    b.on_mtu_update(1000);
    b.on_congestion_event(1, 5000);
    for _ in 0..45 {
        b.on_ack(1, TimeSpan::from_millis(10));
    }
    assert_eq!(b.ack_rate(), AckRate { num: 45, den: 50 });
}

#[test]
fn counts_must_fit() {
    let mut b = brutal(1000);
    assert!(b.has_room(0, 0, u64::MAX));
    b.record(0, 0, u64::MAX);
    assert!(!b.has_room(0, 1, 0));
    assert!(!b.has_room(4, 1, 0));
    // The second that was full gives way.
    assert!(b.has_room(5, 1, 0));
    assert!(b.has_room(6, 1, 0));
}

#[test]
fn either_controller_governs() {
    // What stands for BBR here notes down the events that it gets.
    let mut c = SwitchableController::new(brutal(9000), Vec::new());
    let mut alone = brutal(9000);
    c.on_sent().push("sent");
    c.on_ack(0, TimeSpan::from_millis(20)).push("ack");
    alone.on_ack(0, TimeSpan::from_millis(20));
    c.on_end_acks().push("end");
    c.on_congestion_event(0, 9_000_000).push("loss");
    alone.on_congestion_event(0, 9_000_000);
    c.on_mtu_update(10_000).push("mtu");
    alone.on_mtu_update(10_000);
    assert_eq!(c.bbr(), &vec!["sent", "ack", "end", "loss", "mtu"]);
    assert_eq!(c.brutal().ack_rate(), alone.ack_rate());
    assert_eq!(c.brutal().srtt(), alone.srtt());
    // Either one governs at once.
    assert_eq!(c.window(false, 5, 7), alone.window(5));
    assert_eq!(c.window(false, 5, 7), 20_000);
    assert_eq!(c.window(true, 5, 7), 7);
    assert_eq!(c.window(false, 1 << 20, 7), 1 << 20);
    assert_eq!(c.initial_window(false, 3), 20_000);
    assert_eq!(c.initial_window(true, 3), 3);
}

#[test]
fn header_is_stripped_however_it_arrives() {
    let all = b"\x00\x02hi\x03padapplication data";
    for chunk in 1..all.len() {
        let mut s = DuplexStream::new();
        let mut app = Vec::new();
        for piece in all.chunks(chunk) {
            if s.poll_establish() == Establish::NeedMore {
                s.received(piece).unwrap();
                if s.poll_establish() == Establish::Ready {
                    let mut out = [0u8; 3];
                    while let Some(n) = s.drain(&mut out) {
                        app.extend_from_slice(&out[..n]);
                    }
                }
            } else {
                app.extend_from_slice(piece);
            }
        }
        assert_eq!(app, b"application data");
    }
}

#[test]
fn stream_errors() {
    let mut s = DuplexStream::new();
    assert_eq!(s.poll_establish(), Establish::NeedMore);
    assert_eq!(s.received(&[]), Err(StreamError::ClosedEarly));
    s.received(&[1, 0, 0]).unwrap();
    assert_eq!(s.poll_establish(), Establish::Failed(StreamError::Rejected));
    // It stays rejected.
    assert_eq!(s.poll_establish(), Establish::Failed(StreamError::Rejected));
    let mut s = DuplexStream::new();
    s.received(&[0, 0xff]).unwrap();
    assert_eq!(s.poll_establish(), Establish::NeedMore);
    s.received(&[0xff; 7]).unwrap();
    assert_eq!(s.poll_establish(), Establish::Failed(StreamError::Malformed));
    assert_eq!(
        StreamError::Rejected.message(),
        "hysteria2: server rejected tcp_connect"
    );
    assert_eq!(
        StreamError::Malformed.message(),
        "hysteria2: malformed TCPResponse (length guard exceeded)"
    );
    assert_eq!(
        StreamError::ClosedEarly.message(),
        "hysteria2: stream closed before TCPResponse"
    );
}

#[test]
fn leftover_is_handed_out_in_parts() {
    let mut s = DuplexStream::new();
    s.received(b"\x00\x00\x00abc").unwrap();
    assert_eq!(s.poll_establish(), Establish::Ready);
    let mut out = [b'-'; 2];
    assert_eq!(s.drain(&mut []), Some(0));
    assert_eq!(s.drain(&mut out), Some(2));
    assert_eq!(&out, b"ab");
    assert_eq!(s.drain(&mut out), Some(1));
    assert_eq!(&out, b"cb");
    assert_eq!(s.drain(&mut out), None);
    assert_eq!(s.poll_establish(), Establish::Ready);
}

#[test]
fn fast_open_does_not_wait() {
    let fast: HysteriaClient<()> = HysteriaClient::new(true, false, 0);
    let slow: HysteriaClient<()> = HysteriaClient::new(false, false, 0);
    let a = fast.tcp_connect("a:1");
    assert!(!a.wait);
    assert_eq!(&a.request[..6], b"\x44\x01\x03a:1");
    let mut s = a.stream;
    assert_eq!(s.poll_establish(), Establish::NeedMore);
    assert!(slow.tcp_connect("a:1").wait);
}

#[test]
fn udp_needs_the_server() {
    let mut c: HysteriaClient<u8> = HysteriaClient::new(true, false, 9);
    assert!(!c.udp_enabled());
    assert_eq!(c.server_rx(), 9);
    assert_eq!(
        protocol_error(c.udp(1).err().unwrap()),
        "UDP relay not enabled by server"
    );
    assert!(c.route(b"\0\0\0\x01\0\0\0\x01\x03a:1hi").is_none());
    c.close_session(1);
    let mut c: HysteriaClient<u8> = HysteriaClient::new(true, true, 0);
    assert!(c.udp_enabled());
    let s = c.udp(5).unwrap();
    assert_eq!(s.id(), 1);
    let (tx, m) = c.route(b"\0\0\0\x01\0\0\0\x01\x03a:1hi").unwrap();
    assert_eq!(*tx, 5);
    assert_eq!(m.data, b"hi");
    c.close_session(1);
    assert!(c.route(b"\0\0\0\x01\0\0\0\x01\x03a:1hi").is_none());
}

#[test]
fn reconnects_on_demand() {
    let mut c: ReconnectableClient<u8> = ReconnectableClient::new(Config::default());
    assert!(c.config().fast_open);
    assert_eq!(c.connect_count(), 0);
    assert_eq!(c.current(false).unwrap(), Step::Connect);
    c.connected(1);
    assert_eq!(c.current(false).unwrap(), Step::Reuse);
    assert_eq!(c.client(), Some(&1));
    assert_eq!(c.current(true).unwrap(), Step::Connect);
    c.connected(2);
    assert_eq!(c.connect_count(), 2);
    c.invalidate();
    assert_eq!(c.client(), None);
    assert_eq!(c.current(false).unwrap(), Step::Connect);
    assert_eq!(c.connect_count(), 2);
}

#[test]
fn tcp_is_retried_only_on_a_dead_connection() {
    let mut c: ReconnectableClient<u8> = ReconnectableClient::new(Config::default());
    c.connected(1);
    assert!(!c.on_tcp_failure(true, false));
    assert!(!c.on_tcp_failure(false, true));
    assert_eq!(c.client(), Some(&1));
    assert!(c.on_tcp_failure(true, true));
    assert_eq!(c.client(), None);
}

#[test]
fn closed_for_good() {
    let mut c: ReconnectableClient<u8> = ReconnectableClient::new(Config::default());
    c.connected(1);
    c.close();
    assert_eq!(c.client(), None);
    for _ in 0..2 {
        assert_eq!(
            protocol_error(c.current(false).unwrap_err()),
            "client permanently closed"
        );
        c.invalidate();
    }
    assert_eq!(c.connect_count(), 1);
}

#[test]
fn losses_do_not_shrink_the_window() {
    let mut b = brutal(9000);
    for _ in 0..100 {
        b.on_ack(0, TimeSpan::from_millis(20));
    }
    // The window at a target of 10 MB/s.
    let window = |b: &Brutal| {
        let ack = b.ack_rate();
        b.window(10_000_000 * 20 / 1000 * ack.den / ack.num)
    };
    let mut last = window(&b);
    assert_eq!(last, 200_000);
    for _ in 0..50 {
        b.on_congestion_event(0, 9000);
        assert!(window(&b) >= last);
        last = window(&b);
    }
    // A third was lost: 0.8 is the least, and a quarter more the most.
    assert_eq!(b.ack_rate(), AckRate { num: 4, den: 5 });
    assert_eq!(last, 250_000);
    assert_eq!(b.initial_window(), 18_000);
    assert_eq!(b.srtt(), TimeSpan::from_millis(20));
}
