use rsteria2::buffer::put_varint;
use rsteria2::padding::{auth_request_padding, padding_char, random_padding, tcp_request_padding};
use rsteria2::tcp::{
    encode_tcp_request, encode_tcp_request_with, parse_tcp_response, TcpResponseParse,
};
use rsteria2::wire::{be_u16, be_u32, copy_into, get_varint, put_varint_slice, varint_len};

use bytes::BytesMut;

/// Values at the borders of the four widths, with their encodings.
fn varints() -> Vec<(u64, Vec<u8>)> {
    vec![
        (0, vec![0]),
        (63, vec![63]),
        (64, vec![0x40, 64]),
        (16383, vec![0x7f, 0xff]),
        (16384, vec![0x80, 0, 0x40, 0]),
        (1_073_741_823, vec![0xbf, 0xff, 0xff, 0xff]),
        (1_073_741_824, vec![0xc0, 0, 0, 0, 0x40, 0, 0, 0]),
        (494_878_333, vec![0x9d, 0x7f, 0x3e, 0x7d]),
        (
            151_288_809_941_952_652,
            vec![0xc2, 0x19, 0x7c, 0x5e, 0xff, 0x14, 0xe8, 0x8c],
        ),
        ((1 << 62) - 1, vec![0xff; 8]),
    ]
}

#[test]
fn varint_encodings() {
    for (v, want) in varints() {
        assert_eq!(varint_len(v), want.len());
        let mut slice = [9u8; 10];
        assert_eq!(put_varint_slice(&mut slice, v), want.len());
        assert_eq!(&slice[..want.len()], &want[..]);
        assert_eq!(slice[want.len()..], [9u8; 10][want.len()..]);
        let mut buf = BytesMut::with_capacity(0);
        put_varint(&mut buf, v);
        assert_eq!(&buf[..], &want[..]);
        // What stood before stays.
        put_varint(&mut buf, v);
        assert_eq!(&buf[..want.len()], &want[..]);
        assert_eq!(get_varint(&buf[want.len()..]), Some((v, want.len())));
    }
}

#[test]
fn varint_round_trip_and_prefixes() {
    for (v, bytes) in varints() {
        let mut more = bytes.clone();
        more.push(0xee);
        assert_eq!(get_varint(&more), Some((v, bytes.len())));
        for k in 0..bytes.len() {
            assert_eq!(get_varint(&bytes[..k]), None);
        }
    }
}

#[test]
fn varint_need_not_be_shortest() {
    assert_eq!(get_varint(&[0x40, 0x25]), Some((37, 2)));
}

#[test]
fn big_endian() {
    assert_eq!(be_u16(0x12, 0x34), 0x1234);
    assert_eq!(be_u32(0xde, 0xad, 0xbe, 0xef), 0xdead_beef);
}

#[test]
fn copying_into_the_middle() {
    let mut buf = [0u8; 5];
    copy_into(&mut buf, 1, &[7, 8]);
    assert_eq!(buf, [0, 7, 8, 0, 0]);
}

#[test]
fn padding_alphabet() {
    let all: Vec<u8> = (0..62).map(padding_char).collect();
    assert_eq!(
        &all[..],
        &b"abcdefghijklmnopqrstuvwxyzABCDEFGHIJKLMNOPQRSTUVWXYZ0123456789"[..]
    );
}

#[test]
fn padding_lengths() {
    let mut auth = Vec::new();
    let mut tcp = Vec::new();
    for _ in 0..200 {
        let a = auth_request_padding();
        assert!(a.bytes().all(|b| b.is_ascii_alphanumeric()));
        auth.push(a.len());
        let t = tcp_request_padding();
        assert!(t.iter().all(|b| b.is_ascii_alphanumeric()));
        tcp.push(t.len());
    }
    assert!(auth.iter().all(|&n| (256..2048).contains(&n)));
    assert!(tcp.iter().all(|&n| (64..512).contains(&n)));
    // Two hundred draws are not all alike.
    assert!(auth.iter().any(|&n| n != auth[0]));
    assert!(tcp.iter().any(|&n| n != tcp[0]));
    assert_eq!(random_padding(3, 4).len(), 3);
}

#[test]
fn tcp_request_layout() {
    let frame = encode_tcp_request_with("a:1", b"xyz");
    assert_eq!(&frame[..], &b"\x44\x01\x03a:1\x03xyz"[..]);
}

#[test]
fn tcp_request_with_random_padding() {
    let frame = encode_tcp_request("example.com:80");
    assert_eq!(&frame[..3], &[0x44, 0x01, 14]);
    assert_eq!(&frame[3..17], b"example.com:80");
    let (pad, n) = get_varint(&frame[17..]).unwrap();
    assert!((64..512).contains(&pad));
    assert_eq!(frame.len(), 17 + n + pad as usize);
    assert!(frame[17 + n..].iter().all(|b| b.is_ascii_alphanumeric()));
}

#[test]
fn tcp_response_verdicts() {
    let ok = b"\x00\x02hi\x03padrest";
    assert_eq!(
        parse_tcp_response(ok),
        TcpResponseParse::Done {
            ok: true,
            consumed: 8
        }
    );
    let refused = b"\x01\x00\x00";
    assert_eq!(
        parse_tcp_response(refused),
        TcpResponseParse::Done {
            ok: false,
            consumed: 3
        }
    );
    for k in 0..8 {
        assert_eq!(parse_tcp_response(&ok[..k]), TcpResponseParse::NeedMore);
    }
}

#[test]
fn tcp_response_limits() {
    // A message of 2048 bytes is taken, one of 2049 is not, before any of it arrives.
    assert_eq!(
        parse_tcp_response(&[0, 0x48, 0x00]),
        TcpResponseParse::NeedMore
    );
    assert_eq!(
        parse_tcp_response(&[0, 0x48, 0x01]),
        TcpResponseParse::Invalid
    );
    assert_eq!(
        parse_tcp_response(&[0, 0, 0x50, 0x00]),
        TcpResponseParse::NeedMore
    );
    assert_eq!(
        parse_tcp_response(&[0, 0, 0x50, 0x01]),
        TcpResponseParse::Invalid
    );
}

#[test]
fn tcp_response_with_long_lengths() {
    // Lengths written longer than they need to be.
    let all = b"\x00\x40\x02hi\x80\x00\x00\x03padrest";
    assert_eq!(
        parse_tcp_response(all),
        TcpResponseParse::Done {
            ok: true,
            consumed: 12
        }
    );
    for k in 0..12 {
        assert_eq!(parse_tcp_response(&all[..k]), TcpResponseParse::NeedMore);
    }
}
