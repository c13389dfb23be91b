use vstd::prelude::*;

use crate::chunkmap::append_slice;
use crate::varint::{append_uvarint, lemma_decode_within, read_uvarint, uvarint_decode, varint_encoding};
use crate::CodecError;

verus! {

/// Appends one frame: the payload's length as a varint, then the payload.
pub fn write_frame(payload: &[u8], out: &mut Vec<u8>)
    ensures
        final(out)@ == old(out)@ + varint_encoding(payload@.len()) + payload@,
{
    append_uvarint(out, payload.len() as u64);
    append_slice(out, payload);
}

/// Reads the frame at `*pos` of `buf`. At the end of `buf` there is none.
/// Otherwise the payload is `buf[start..start + len]` and `*pos` moves past
/// it; a bad length varint, or a payload that runs past the end of `buf`,
/// is `Malformed` and leaves `*pos` where it was.
pub fn next_frame(buf: &[u8], pos: &mut usize) -> (r: Result<Option<(usize, usize)>, CodecError>)
    requires
        *old(pos) <= buf@.len(),
    ensures
        ({
            let p = *old(pos) as int;
            let d = uvarint_decode(buf@.skip(p));
            if p == buf@.len() {
                r == Ok::<Option<(usize, usize)>, CodecError>(None) && *final(pos) == p
            } else if d.1 <= 0 || d.0 > buf@.len() - p - d.1 {
                r == Err::<Option<(usize, usize)>, CodecError>(CodecError::Malformed)
                    && *final(pos) == p
            } else {
                r == Ok::<Option<(usize, usize)>, CodecError>(
                    Some(((p + d.1) as usize, d.0 as usize)),
                ) && *final(pos) == p + d.1 + d.0
            }
        }),
{
    if *pos == buf.len() {
        return Ok(None);
    }
    let mut p = *pos;
    let len = read_uvarint(buf, &mut p);
    proof {
        lemma_decode_within(buf@.skip(*pos as int));
    }
    let len = match len {
        Ok(v) => v,
        Err(e) => {
            return Err(e);
        },
    };
    if len > (buf.len() - p) as u64 {
        return Err(CodecError::Malformed);
    }
    let start = p;
    *pos = p + len as usize;
    Ok(Some((start, len as usize)))
}

} // verus!
