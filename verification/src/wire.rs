//! Length-prefixed framing over a byte stream.
//!
//! A frame is a four-byte big-endian length followed by that many payload
//! bytes; it is the unit of transport and carries exactly one serialized
//! request or response. A declared length over the cap is a protocol
//! violation: the peer is cut off rather than allowed to exhaust memory.

use vstd::prelude::*;

verus! {

/// Longest payload a frame may carry.
pub const MAX_FRAME_LEN: usize = 0x0080_0000;

/// The four-byte big-endian length prefix for a payload of `n` bytes.
pub open spec fn len_prefix(n: u32) -> Seq<u8> {
    seq![(n >> 24) as u8, (n >> 16) as u8, (n >> 8) as u8, n as u8]
}

/// The length named by a four-byte big-endian prefix.
pub open spec fn prefix_val(b: Seq<u8>) -> int
    recommends
        b.len() >= 4,
{
    0x100_0000 * (b[0] as int) + 0x1_0000 * (b[1] as int) + 0x100 * (b[2] as int) + (b[3] as int)
}

/// One frame: the payload's length, then the payload.
pub open spec fn frame_bytes(p: Seq<u8>) -> Seq<u8> {
    len_prefix(p.len() as u32) + p
}

proof fn lemma_prefix_val_of_len_prefix(n: u32)
    ensures
        prefix_val(len_prefix(n)) == n,
{
    assert(((n >> 24) as u8 as u64) * 0x100_0000 + ((n >> 16) as u8 as u64) * 0x1_0000 + ((n
        >> 8) as u8 as u64) * 0x100 + (n as u8 as u64) == n as u64) by (bit_vector);
}

/// Reading the prefix of a well-formed frame gives back the payload length,
/// and the bytes after it are the payload, whatever follows the frame in
/// the stream.
pub proof fn lemma_frame_round_trip(p: Seq<u8>, rest: Seq<u8>)
    requires
        p.len() <= MAX_FRAME_LEN,
    ensures
        (frame_bytes(p) + rest).len() == 4 + p.len() + rest.len(),
        prefix_val(frame_bytes(p) + rest) == p.len(),
        (frame_bytes(p) + rest).subrange(4, 4 + p.len() as int) == p,
{
    let b = frame_bytes(p) + rest;
    assert(p.len() as u32 == p.len());
    lemma_prefix_val_of_len_prefix(p.len() as u32);
    assert(b[0] == len_prefix(p.len() as u32)[0]);
    assert(b[1] == len_prefix(p.len() as u32)[1]);
    assert(b[2] == len_prefix(p.len() as u32)[2]);
    assert(b[3] == len_prefix(p.len() as u32)[3]);
    assert(b.subrange(4, 4 + p.len() as int) =~= p);
}

/// Sending a frame fails only when the payload is over the cap.
#[derive(Debug, Clone, Copy, PartialEq, Eq, Structural)]
pub enum FrameError {
    TooLong,
}

/// Wrap one payload in a frame.
pub fn encode_frame(payload: &Vec<u8>) -> (r: Result<Vec<u8>, FrameError>)
    ensures
        payload@.len() <= MAX_FRAME_LEN <==> r is Ok,
        r matches Ok(v) ==> v@ == frame_bytes(payload@),
{
    if payload.len() > MAX_FRAME_LEN {
        return Err(FrameError::TooLong);
    }
    let n: u32 = payload.len() as u32;
    let mut out: Vec<u8> = Vec::new();
    out.push((n >> 24) as u8);
    out.push((n >> 16) as u8);
    out.push((n >> 8) as u8);
    out.push(n as u8);
    proof {
        assert(n == payload@.len());
        assert(out@ =~= len_prefix(n));
    }
    let m = payload.len();
    let mut j: usize = 0;
    while j < m
        invariant
            m == payload@.len(),
            j <= m,
            out@ == len_prefix(payload@.len() as u32) + payload@.subrange(0, j as int),
        decreases m - j,
    {
        out.push(payload[j]);
        proof {
            assert(out@ =~= len_prefix(payload@.len() as u32) + payload@.subrange(0, j + 1));
        }
        j = j + 1;
    }
    proof {
        assert(payload@.subrange(0, m as int) =~= payload@);
        assert(out@ =~= frame_bytes(payload@));
    }
    Ok(out)
}

/// What the front of a read buffer holds.
pub enum FrameStep {
    /// Not enough bytes yet for a prefix, or for the announced payload.
    Incomplete,
    /// The announced length is over the cap: a protocol violation.
    TooLong,
    /// One whole frame: its payload, and how many buffer bytes it spans.
    Frame(Vec<u8>, usize),
}

/// Try to take one frame off the front of a read buffer.
pub fn parse_frame(buf: &Vec<u8>) -> (r: FrameStep)
    ensures
        buf@.len() < 4 ==> r is Incomplete,
        buf@.len() >= 4 && prefix_val(buf@) > MAX_FRAME_LEN ==> r is TooLong,
        buf@.len() >= 4 && prefix_val(buf@) <= MAX_FRAME_LEN && buf@.len() < 4 + prefix_val(buf@)
            ==> r is Incomplete,
        buf@.len() >= 4 && prefix_val(buf@) <= MAX_FRAME_LEN && buf@.len() >= 4 + prefix_val(buf@)
            ==> (r matches FrameStep::Frame(p, c) && p@ == buf@.subrange(4, 4 + prefix_val(buf@))
            && c == 4 + prefix_val(buf@)),
{
    if buf.len() < 4 {
        return FrameStep::Incomplete;
    }
    let b0 = buf[0];
    let b1 = buf[1];
    let b2 = buf[2];
    let b3 = buf[3];
    let n: u32 = ((b0 as u32) << 24) | ((b1 as u32) << 16) | ((b2 as u32) << 8) | (b3 as u32);
    proof {
        assert((((b0 as u32) << 24) | ((b1 as u32) << 16) | ((b2 as u32) << 8) | (b3
            as u32)) as u64 == (b0 as u64) * 0x100_0000 + (b1 as u64) * 0x1_0000 + (b2 as u64)
            * 0x100 + (b3 as u64)) by (bit_vector);
        assert(n == prefix_val(buf@));
    }
    if n as usize > MAX_FRAME_LEN {
        return FrameStep::TooLong;
    }
    let len: usize = n as usize;
    if buf.len() - 4 < len {
        return FrameStep::Incomplete;
    }
    let mut payload: Vec<u8> = Vec::new();
    let mut j: usize = 0;
    proof {
        assert(payload@ =~= buf@.subrange(4, 4));
    }
    while j < len
        invariant
            len == prefix_val(buf@),
            len <= MAX_FRAME_LEN,
            buf@.len() >= 4 + len,
            j <= len,
            payload@ == buf@.subrange(4, 4 + j as int),
        decreases len - j,
    {
        payload.push(buf[4 + j]);
        proof {
            assert(payload@ =~= buf@.subrange(4, 4 + (j + 1)));
        }
        j = j + 1;
    }
    FrameStep::Frame(payload, 4 + len)
}

} // verus!
