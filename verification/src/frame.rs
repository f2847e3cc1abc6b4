//! Length-prefixed frames of a byte stream: `[u32 len][payload]`, little-endian.
use vstd::prelude::*;

use crate::types::ProtoError;
use crate::wire::{copy_range, get_u32, le32, put_bytes, put_u32, u32_le};

verus! {

/// What reading one frame off the front of buffered bytes `b` gives: the
/// payload and the bytes after it; `None` while the frame is incomplete; an
/// error when its length exceeds `max_frame`.
pub open spec fn read_frame(b: Seq<u8>, max_frame: usize) -> Result<Option<(Seq<u8>, Seq<u8>)>, ProtoError> {
    if b.len() < 4 {
        Ok(None)
    } else {
        let len = u32_le(b) as int;
        if len > max_frame {
            Err(ProtoError::FrameTooLarge(len as usize))
        } else if b.len() < len + 4 {
            Ok(None)
        } else {
            Ok(Some((b.subrange(4, len + 4), b.subrange(len + 4, b.len() as int))))
        }
    }
}

/// Takes one complete frame off the front of `buf`, if there is one, and
/// returns its payload; `buf` keeps what follows it. An incomplete frame or an
/// error leaves `buf` as it was.
pub fn try_read_frame(buf: &mut Vec<u8>, max_frame: usize) -> (r: Result<Option<Vec<u8>>, ProtoError>)
    ensures
        match read_frame(old(buf)@, max_frame) {
            Ok(Some((p, rest))) => r matches Ok(Some(v)) && v@ == p && final(buf)@ == rest,
            Ok(None) => r matches Ok(None) && final(buf)@ == old(buf)@,
            Err(e) => r == Err::<Option<Vec<u8>>, ProtoError>(e) && final(buf)@ == old(buf)@,
        },
{
    let n = buf.len();
    if n < 4 {
        return Ok(None);
    }
    let len32 = get_u32(buf.as_slice(), 0);
    proof {
        assert(buf@.subrange(0, 4).subrange(0, 4) =~= buf@.subrange(0, 4));
        crate::wire::lemma_u32_le_prefix(buf@, buf@.subrange(0, 4));
    }
    let len = len32 as usize;
    if len > max_frame {
        return Err(ProtoError::FrameTooLarge(len));
    }
    if n - 4 < len {
        return Ok(None);
    }
    let payload = copy_range(buf.as_slice(), 4, 4 + len);
    let rest = copy_range(buf.as_slice(), 4 + len, n);
    *buf = rest;
    Ok(Some(payload))
}

/// The frame of `payload`: its length, then its bytes.
pub fn frame_payload(payload: &[u8]) -> (r: Vec<u8>)
    requires
        payload.len() <= u32::MAX,
    ensures
        r@ == le32(payload.len() as u32) + payload@,
{
    let mut out: Vec<u8> = Vec::new();
    put_u32(&mut out, payload.len() as u32);
    put_bytes(&mut out, payload);
    out
}

/// A framed payload followed by any bytes reads back as the payload, leaving
/// those bytes, when it is within the frame limit.
pub proof fn lemma_frame_roundtrip(p: Seq<u8>, rest: Seq<u8>, max_frame: usize)
    requires
        p.len() <= max_frame,
        p.len() <= u32::MAX,
    ensures
        read_frame(le32(p.len() as u32) + p + rest, max_frame) == Ok::<
            Option<(Seq<u8>, Seq<u8>)>,
            ProtoError,
        >(Some((p, rest))),
{
    let b = le32(p.len() as u32) + p + rest;
    crate::wire::lemma_le32_roundtrip(p.len() as u32);
    assert(b.subrange(0, 4) =~= le32(p.len() as u32).subrange(0, 4));
    crate::wire::lemma_u32_le_prefix(b, le32(p.len() as u32));
    assert(b.subrange(4, p.len() as int + 4) =~= p);
    assert(b.subrange(p.len() as int + 4, b.len() as int) =~= rest);
}

} // verus!
