//! Framing of the daemon's pipe messages: a 4-byte little-endian length
//! followed by the encoded message.
use vstd::prelude::*;
use bytes::{Buf, BufMut, BytesMut};
use crate::usn::le32;

verus! {

#[verifier::external_type_specification]
#[verifier::external_body]
pub struct ExBytesMut(BytesMut);

/// The bytes a `BytesMut` buffer holds.
pub uninterp spec fn bytes_mut_contents(b: BytesMut) -> Seq<u8>;

/// The four little-endian bytes of `n`.
pub open spec fn u32_le_bytes(n: u32) -> Seq<u8> {
    seq![
        (n % 0x100) as u8,
        ((n / 0x100) % 0x100) as u8,
        ((n / 0x1_0000) % 0x100) as u8,
        (n / 0x100_0000) as u8,
    ]
}

/// Calls `BytesMut::new`, which makes an empty buffer.
#[verifier::external_body]
fn bytes_mut_new() -> (r: BytesMut)
    ensures
        bytes_mut_contents(r) == Seq::<u8>::empty(),
{
    BytesMut::new()
}

/// Calls `BufMut::put_u32_le` on a `BytesMut`, which appends the four
/// little-endian bytes of `n`.  It panics when the buffer would grow past
/// `isize::MAX` bytes, which `requires` excludes.
#[verifier::external_body]
fn put_u32_le(b: &mut BytesMut, n: u32)
    requires
        bytes_mut_contents(*old(b)).len() + 4 <= isize::MAX,
    ensures
        bytes_mut_contents(*final(b)) == bytes_mut_contents(*old(b)) + u32_le_bytes(n),
{
    b.put_u32_le(n)
}

/// Calls `BufMut::put_slice` on a `BytesMut`, which appends `src`.  It
/// panics when the buffer would grow past `isize::MAX` bytes, which
/// `requires` excludes.
#[verifier::external_body]
fn put_slice(b: &mut BytesMut, src: &[u8])
    requires
        bytes_mut_contents(*old(b)).len() + src@.len() <= isize::MAX,
    ensures
        bytes_mut_contents(*final(b)) == bytes_mut_contents(*old(b)) + src@,
{
    b.put_slice(src)
}

/// Copies the bytes of a `BytesMut` into a `Vec` (its `Deref` to `[u8]`,
/// then `to_vec`).
#[verifier::external_body]
fn bytes_mut_to_vec(b: &BytesMut) -> (r: Vec<u8>)
    ensures
        r@ == bytes_mut_contents(*b),
{
    b.to_vec()
}

/// Calls `Buf::get_u32_le` on a byte slice: reads the first four bytes as a
/// little-endian number and advances the slice past them.  It panics on a
/// slice shorter than four bytes, which `requires` excludes.
#[verifier::external_body]
fn get_u32_le(buf: &mut &[u8]) -> (r: u32)
    requires
        old(buf)@.len() >= 4,
    ensures
        r == le32(old(buf)@, 0),
        final(buf)@ == old(buf)@.skip(4),
{
    buf.get_u32_le()
}

/// The frame of a payload: its length as a 32-bit little-endian number
/// (truncated to 32 bits, as the length is stored in a `u32`), then the
/// payload.
pub open spec fn frame(payload: Seq<u8>) -> Seq<u8> {
    u32_le_bytes(payload.len() as u32) + payload
}

/// Encode a message payload with a length prefix (4 bytes, little-endian).
pub fn encode_message(encoded: &[u8]) -> (r: Vec<u8>)
    requires
        encoded@.len() + 4 <= isize::MAX,
    ensures
        r@ == frame(encoded@),
{
    let mut buf = bytes_mut_new();
    let len = encoded.len() as u32;
    put_u32_le(&mut buf, len);
    put_slice(&mut buf, encoded);
    bytes_mut_to_vec(&buf)
}

/// Why a frame could not be taken apart.
#[derive(Debug, Clone, Copy, PartialEq, Eq)]
pub enum FrameError {
    /// Fewer than four bytes: no length prefix.
    TooShort,
    /// The prefix announces more bytes than follow it.
    Incomplete { expected: usize, got: usize },
}

/// What taking a frame apart gives: the payload that the length prefix
/// announces, or why there is none.
pub open spec fn unframe(data: Seq<u8>) -> Result<Seq<u8>, FrameError> {
    if data.len() < 4 {
        Err(FrameError::TooShort)
    } else if data.len() - 4 < le32(data, 0) {
        Err(FrameError::Incomplete { expected: le32(data, 0) as usize, got: (data.len() - 4) as usize })
    } else {
        Ok(data.subrange(4, 4 + le32(data, 0)))
    }
}

/// Decode a length-prefixed message: the payload that the prefix announces
/// (bytes after it are ignored).
pub fn decode_message(data: &[u8]) -> (r: Result<&[u8], FrameError>)
    ensures
        match (r, unframe(data@)) {
            (Ok(p), Ok(q)) => p@ == q,
            (Err(e), Err(f)) => e == f,
            _ => false,
        },
{
    if data.len() < 4 {
        return Err(FrameError::TooShort);
    }
    let mut buf: &[u8] = data;
    let len = get_u32_le(&mut buf) as usize;
    if buf.len() < len {
        return Err(FrameError::Incomplete { expected: len, got: buf.len() });
    }
    let payload = &buf[0..len];
    assert(payload@ =~= data@.subrange(4, 4 + le32(data@, 0)));
    Ok(payload)
}

/// Read length prefix from buffer
pub fn read_length_prefix(data: &[u8]) -> (r: Option<u32>)
    ensures
        r == (if data@.len() < 4 {
            None
        } else {
            Some(le32(data@, 0) as u32)
        }),
{
    if data.len() < 4 {
        return None;
    }
    let mut buf: &[u8] = data;
    Some(get_u32_le(&mut buf))
}

/// Reading back the prefix of four little-endian bytes gives the number.
pub proof fn lemma_le_bytes_roundtrip(n: u32, rest: Seq<u8>)
    ensures
        le32(u32_le_bytes(n) + rest, 0) == n,
{
    let b = u32_le_bytes(n) + rest;
    assert(b[0] == (n % 0x100) as u8);
    assert(b[1] == ((n / 0x100) % 0x100) as u8);
    assert(b[2] == ((n / 0x1_0000) % 0x100) as u8);
    assert(b[3] == (n / 0x100_0000) as u8);
    assert((n % 0x100) + ((n / 0x100) % 0x100) * 0x100 + ((n / 0x1_0000) % 0x100) * 0x1_0000 + (n
        / 0x100_0000) * 0x100_0000 == n) by (nonlinear_arith);
}

/// A framed payload whose length fits in 32 bits decodes to itself.
pub proof fn law_frame_roundtrip(payload: Seq<u8>)
    requires
        payload.len() <= u32::MAX,
    ensures
        unframe(frame(payload)) == Ok::<Seq<u8>, FrameError>(payload),
{
    lemma_le_bytes_roundtrip(payload.len() as u32, payload);
    assert(frame(payload).subrange(4, 4 + payload.len() as int) =~= payload);
}

/// The length prefix of a frame is the payload's length.
pub proof fn law_prefix_is_length(payload: Seq<u8>)
    requires
        payload.len() <= u32::MAX,
    ensures
        le32(frame(payload), 0) == payload.len(),
{
    lemma_le_bytes_roundtrip(payload.len() as u32, payload);
}

} // verus!
