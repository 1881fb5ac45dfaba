//! Byte buffers of the `bytes` crate, and varints written into them.

use bytes::{BufMut, Bytes, BytesMut};
use vstd::prelude::*;

use crate::wire;

verus! {

#[verifier::external_type_specification]
#[verifier::external_body]
pub struct ExBytesMut(bytes::BytesMut);

#[verifier::external_type_specification]
#[verifier::external_body]
pub struct ExBytes(bytes::Bytes);

/// The bytes that a `bytes::BytesMut` holds, in order.
pub uninterp spec fn buffered(buf: BytesMut) -> Seq<u8>;

/// The bytes that a `bytes::Bytes` holds, in order.
pub uninterp spec fn contents(b: Bytes) -> Seq<u8>;

/// `bytes::BytesMut::with_capacity` gives an empty buffer. It panics on a capacity beyond
/// `isize::MAX`, which is left out.
pub assume_specification[ bytes::BytesMut::with_capacity ](capacity: usize) -> (b: BytesMut)
    requires
        capacity <= isize::MAX,
    ensures
        buffered(b) == Seq::<u8>::empty(),
;

/// `bytes::BytesMut::freeze` keeps the bytes of the buffer.
pub assume_specification[ bytes::BytesMut::freeze ](b: BytesMut) -> (r: Bytes)
    ensures
        contents(r) == buffered(b),
;

/// `bytes::Bytes::copy_from_slice` holds the bytes of the slice.
pub assume_specification[ bytes::Bytes::copy_from_slice ](data: &[u8]) -> (r: Bytes)
    ensures
        contents(r) == data@,
;

/// `bytes::BufMut::put_u8` on a `BytesMut` appends one byte. The buffer grows by doubling,
/// so lengths beyond a quarter of the address space, where growing could panic, are left out.
#[verifier::external_body]
pub(crate) fn put_u8(buf: &mut BytesMut, b: u8)
    requires
        buffered(*old(buf)).len() < usize::MAX / 4,
    ensures
        buffered(*final(buf)) == buffered(*old(buf)).push(b),
{
    buf.put_u8(b);
}

/// `bytes::BufMut::put_slice` on a `BytesMut` appends the slice, within the same limit.
#[verifier::external_body]
pub(crate) fn put_slice(buf: &mut BytesMut, src: &[u8])
    requires
        buffered(*old(buf)).len() + src@.len() <= usize::MAX / 4,
    ensures
        buffered(*final(buf)) == buffered(*old(buf)) + src@,
{
    buf.put_slice(src);
}

/// Append a QUIC varint to `buf`.
pub fn put_varint(buf: &mut BytesMut, v: u64)
    requires
        buffered(*old(buf)).len() + 8 <= usize::MAX / 4,
    ensures
        buffered(*final(buf)) == buffered(*old(buf)) + wire::varint_bytes(v),
{
    proof {
        wire::lemma_be_bytes_spelled(wire::varint_word(v));
        wire::lemma_varint_word_bytes(v);
    }
    if v <= 63 {
        put_u8(buf, v as u8);
    } else if v <= 16383 {
        put_u8(buf, (v >> 8) as u8 | 0x40);
        put_u8(buf, v as u8);
    } else if v <= 1_073_741_823 {
        put_u8(buf, (v >> 24) as u8 | 0x80);
        put_u8(buf, (v >> 16) as u8);
        put_u8(buf, (v >> 8) as u8);
        put_u8(buf, v as u8);
    } else {
        put_u8(buf, (v >> 56) as u8 | 0xc0);
        put_u8(buf, (v >> 48) as u8);
        put_u8(buf, (v >> 40) as u8);
        put_u8(buf, (v >> 32) as u8);
        put_u8(buf, (v >> 24) as u8);
        put_u8(buf, (v >> 16) as u8);
        put_u8(buf, (v >> 8) as u8);
        put_u8(buf, v as u8);
    }
    assert(buffered(*buf) =~= buffered(*old(buf)) + wire::varint_bytes(v));
}

/// A varint that was appended leaves what stood before it as it was, is as long as it needs to
/// be, and reads back as the number that was written, whatever follows it.
pub proof fn law_appended_varint_is_read(before: Seq<u8>, v: u64, tail: Seq<u8>)
    requires
        v < 0x4000_0000_0000_0000,
    ensures
        ({
            let after = before + wire::varint_bytes(v);
            let at = before.len() as int;
            &&& after.take(at) == before
            &&& after.len() == at + wire::varint_width(v as nat)
            &&& wire::varint_front(after.skip(at) + tail) == Some(
                (v as nat, wire::varint_width(v as nat)),
            )
        }),
{
    let after = before + wire::varint_bytes(v);
    wire::law_varint_round_trip(v, tail);
    assert(after.take(before.len() as int) =~= before);
    assert(after.skip(before.len() as int) =~= wire::varint_bytes(v));
}

} // verus!
