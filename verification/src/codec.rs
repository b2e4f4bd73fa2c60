//! Framing of protocol messages on the wire: a 4-byte big-endian length,
//! then that many bytes of the encoded message, at most 10 MiB.
use vstd::prelude::*;
use crate::error::{GaffaError, Result};
use crate::text::{decimal_text, u64_decimal};
use crate::bytes_be::{u32_be_bytes, u32_from_be, push_u32_be, read_u32_be, extend_bytes, copy_range, lemma_u32_be_roundtrip, lemma_u32_from_be_prefix};

verus! {

/// The largest message, in bytes: 10 MiB.
pub const MAX_MESSAGE_SIZE: usize = 10485760;

/// The text of the error for a message of `n` bytes, over the limit.
pub open spec fn too_large_text(n: nat) -> Seq<char> {
    "Message too large: "@ + decimal_text(n) + " bytes (max: "@ + decimal_text(MAX_MESSAGE_SIZE as nat) + " bytes)"@
}

/// The frame of a message: its length in four big-endian bytes, then its
/// bytes.
pub open spec fn frame(data: Seq<u8>) -> Seq<u8> {
    u32_be_bytes(data.len() as u32) + data
}

/// The error for a message of `n` bytes, over the limit.
fn too_large(n: u64) -> (r: GaffaError)
    ensures
        r matches GaffaError::Protocol(s) && s@ == too_large_text(n as nat),
{
    let mut s = String::from_str("Message too large: ");
    s.append(u64_decimal(n).as_str());
    s.append(" bytes (max: ");
    s.append(u64_decimal(MAX_MESSAGE_SIZE as u64).as_str());
    s.append(" bytes)");
    GaffaError::Protocol(s)
}

/// What taking a frame off the front of `buf` gives: nothing yet while
/// fewer than four bytes, or fewer than the announced length after them,
/// are there; an error when the announced length is over the limit;
/// otherwise the message, with `rest` the bytes after it.
pub open spec fn frame_taken(buf: Seq<u8>, r: Result<Option<Vec<u8>>>, rest: Seq<u8>) -> bool {
    if buf.len() < 4 {
        r matches Ok(None) && rest == buf
    } else {
        let n = u32_from_be(buf) as nat;
        if n > MAX_MESSAGE_SIZE {
            (r matches Err(GaffaError::Protocol(s)) && s@ == too_large_text(n)) && rest == buf
        } else if buf.len() < 4 + n {
            r matches Ok(None) && rest == buf
        } else {
            (r matches Ok(Some(m)) && m@ == buf.subrange(4, 4 + n as int)) && rest == buf.subrange(4 + n as int, buf.len() as int)
        }
    }
}

/// What framing `data` onto `out` gives: refused when `data` is over the
/// limit, else its frame appended.
pub open spec fn frame_put(data: Seq<u8>, before: Seq<u8>, r: Result<()>, after: Seq<u8>) -> bool {
    if data.len() > MAX_MESSAGE_SIZE {
        (r matches Err(GaffaError::Protocol(s)) && s@ == too_large_text(data.len())) && after == before
    } else {
        r is Ok && after == before + frame(data)
    }
}

/// Takes the frame at the front of `buf` off it, when a whole one is there.
fn take_frame(buf: &mut Vec<u8>) -> (r: Result<Option<Vec<u8>>>)
    ensures
        frame_taken(old(buf)@, r, final(buf)@),
{
    if buf.len() < 4 {
        return Ok(None);
    }
    let n = read_u32_be(buf.as_slice(), 0);
    proof {
        assert(buf@.subrange(0, buf@.len() as int) =~= buf@);
    }
    let length = n as usize;
    if length > MAX_MESSAGE_SIZE {
        return Err(too_large(n as u64));
    }
    if buf.len() - 4 < length {
        return Ok(None);
    }
    let message = copy_range(buf.as_slice(), 4, 4 + length);
    let rest = copy_range(buf.as_slice(), 4 + length, buf.len());
    *buf = rest;
    Ok(Some(message))
}

/// Appends the frame of `data` to `out`; refuses a message over the limit.
fn put_frame(data: &[u8], out: &mut Vec<u8>) -> (r: Result<()>)
    ensures
        frame_put(data@, old(out)@, r, final(out)@),
{
    if data.len() > MAX_MESSAGE_SIZE {
        return Err(too_large(data.len() as u64));
    }
    push_u32_be(out, data.len() as u32);
    extend_bytes(out, data);
    proof {
        assert(old(out)@ + u32_be_bytes(data@.len() as u32) + data@ =~= old(out)@ + frame(data@));
    }
    Ok(())
}

/// The broker's side of the framing: it reads requests and writes
/// responses.
#[derive(Debug)]
pub struct GaffaCodec;

/// The client's side of the framing: it writes requests and reads
/// responses.
#[derive(Debug)]
pub struct ClientCodec;

impl GaffaCodec {
    /// Takes the next request's bytes off the front of `src`, once they
    /// have all arrived; refuses a request announced over the limit.
    pub fn decode(&mut self, src: &mut Vec<u8>) -> (r: Result<Option<Vec<u8>>>)
        ensures
            frame_taken(old(src)@, r, final(src)@),
    {
        take_frame(src)
    }

    /// Appends the frame of a response's bytes to `dst`; refuses a response
    /// over the limit.
    pub fn encode(&mut self, item: Vec<u8>, dst: &mut Vec<u8>) -> (r: Result<()>)
        ensures
            frame_put(item@, old(dst)@, r, final(dst)@),
    {
        put_frame(item.as_slice(), dst)
    }
}

impl ClientCodec {
    /// Takes the next response's bytes off the front of `src`, once they
    /// have all arrived; refuses a response announced over the limit.
    pub fn decode(&mut self, src: &mut Vec<u8>) -> (r: Result<Option<Vec<u8>>>)
        ensures
            frame_taken(old(src)@, r, final(src)@),
    {
        take_frame(src)
    }

    /// Appends the frame of a request's bytes to `dst`; refuses a request
    /// over the limit.
    pub fn encode(&mut self, item: Vec<u8>, dst: &mut Vec<u8>) -> (r: Result<()>)
        ensures
            frame_put(item@, old(dst)@, r, final(dst)@),
    {
        put_frame(item.as_slice(), dst)
    }
}

/// A framed message read back from the front of the bytes, followed by
/// anything, gives the message, and leaves what followed.
pub proof fn lemma_frame_roundtrip(data: Seq<u8>, rest: Seq<u8>)
    requires
        data.len() <= MAX_MESSAGE_SIZE,
    ensures
        frame(data) + rest == u32_be_bytes(data.len() as u32) + data + rest,
        (frame(data) + rest).len() >= 4,
        u32_from_be(frame(data) + rest) == data.len(),
        (frame(data) + rest).subrange(4, 4 + data.len() as int) == data,
        (frame(data) + rest).subrange(4 + data.len() as int, (frame(data) + rest).len() as int) == rest,
{
    let len = data.len() as u32;
    lemma_u32_be_roundtrip(len);
    let buf = frame(data) + rest;
    let head = u32_be_bytes(len);
    assert(buf.subrange(0, 4) =~= head.subrange(0, 4));
    lemma_u32_from_be_prefix(buf, head);
    assert(buf.subrange(4, 4 + data.len() as int) =~= data);
    assert(buf.subrange(4 + data.len() as int, buf.len() as int) =~= rest);
}

} // verus!
