use vstd::prelude::*;

use crate::cache::{cache_view, VecCache};
use crate::chunkmap::append_slice;
use crate::varint::{append_uvarint, lemma_decode_within, read_uvarint, uvarint_decode, varint_encoding};
use crate::CodecError;

verus! {

/// `buf` with each byte that lines up with `src[offset..]` XORed with it.
pub open spec fn xor_delta(buf: Seq<u8>, src: Seq<u8>, offset: int) -> Seq<u8> {
    Seq::new(
        buf.len(),
        |i: int|
            if offset + i < src.len() {
                buf[i] ^ src[offset + i]
            } else {
                buf[i]
            },
    )
}

/// `n` zero bytes.
pub open spec fn zeros(n: nat) -> Seq<u8> {
    Seq::new(n, |i: int| 0u8)
}

/// Zero-run coding of `buf` from byte `i` on, with `z` zeros pending: each
/// other byte stands for itself; a run of zeros becomes `0, length`, runs
/// longer than 255 being split.
pub open spec fn zrle_from(buf: Seq<u8>, i: nat, z: nat) -> Seq<u8>
    decreases buf.len() - i,
{
    if i >= buf.len() {
        if z > 0 {
            seq![0u8, z as u8]
        } else {
            seq![]
        }
    } else if buf[i as int] == 0 {
        if z + 1 >= 255 {
            seq![0u8, 255u8] + zrle_from(buf, i + 1, 0)
        } else {
            zrle_from(buf, i + 1, z + 1)
        }
    } else if z > 0 {
        seq![0u8, z as u8, buf[i as int]] + zrle_from(buf, i + 1, 0)
    } else {
        seq![buf[i as int]] + zrle_from(buf, i + 1, 0)
    }
}

/// Zero-run coding of `buf`.
pub open spec fn zrle_spec(buf: Seq<u8>) -> Seq<u8> {
    zrle_from(buf, 0, 0)
}

/// Decoding of zero-run coding: `0, n` stands for `n` zeros (a `0` right
/// after a `0` starts the run again, a `0` at the end stands for nothing),
/// any other byte for itself.
pub open spec fn zrld_spec(s: Seq<u8>) -> Seq<u8>
    decreases s.len(),
{
    if s.len() == 0 {
        seq![]
    } else if s[0] != 0 {
        seq![s[0]] + zrld_spec(s.drop_first())
    } else if s.len() == 1 {
        seq![]
    } else if s[1] == 0 {
        zrld_spec(s.drop_first())
    } else {
        zeros(s[1] as nat) + zrld_spec(s.skip(2))
    }
}

/// Number of positions `j < k` where `needle[j]` equals `hay[off + j]`.
pub open spec fn match_count(needle: Seq<u8>, hay: Seq<u8>, off: int, k: nat) -> nat
    decreases k,
{
    if k == 0 {
        0
    } else {
        match_count(needle, hay, off, (k - 1) as nat) + if needle[k - 1] == hay[off + k - 1] {
            1nat
        } else {
            0nat
        }
    }
}

/// How many bytes of `needle` equal `hay`'s when `needle` is laid at `off`.
pub open spec fn score(needle: Seq<u8>, hay: Seq<u8>, off: int) -> nat {
    let k = if needle.len() < hay.len() - off {
        needle.len()
    } else {
        (hay.len() - off) as nat
    };
    match_count(needle, hay, off, k)
}

/// The first offset below `k` with the highest score, and that score;
/// `(0, 0)` when no offset scores.
pub open spec fn best_offset(needle: Seq<u8>, hay: Seq<u8>, k: nat) -> (nat, nat)
    decreases k,
{
    if k == 0 {
        (0, 0)
    } else {
        let b = best_offset(needle, hay, (k - 1) as nat);
        let s = score(needle, hay, k - 1);
        if s > b.1 {
            ((k - 1) as nat, s)
        } else {
            b
        }
    }
}

/// The first entry among the first `k` of `c` that scores highest, with its
/// best offset and score; `(0, 0, 0)` when none scores.
pub open spec fn best_entry(needle: Seq<u8>, c: Seq<(Seq<u8>, usize)>, k: nat) -> (nat, nat, nat)
    decreases k,
{
    if k == 0 {
        (0, 0, 0)
    } else {
        let b = best_entry(needle, c, (k - 1) as nat);
        let r = best_offset(needle, c[k - 1].0, c[k - 1].0.len());
        if r.1 > b.2 {
            ((k - 1) as nat, r.0, r.1)
        } else {
            b
        }
    }
}

/// XORs `buf` with `deltasource[offset..]` where they overlap.
fn delta(buf: &[u8], deltasource: &[u8], offset: usize) -> (d: Vec<u8>)
    requires
        offset <= deltasource@.len(),
    ensures
        d@ == xor_delta(buf@, deltasource@, offset as int),
{
    let mut d: Vec<u8> = Vec::new();
    let mut i: usize = 0;
    let avail = deltasource.len() - offset;
    while i < buf.len()
        invariant
            i <= buf@.len(),
            avail == deltasource@.len() - offset,
            deltasource@.len() <= usize::MAX,
            d@ == xor_delta(buf@, deltasource@, offset as int).take(i as int),
        decreases buf@.len() - i,
    {
        if i < avail {
            d.push(buf[i] ^ deltasource[offset + i]);
        } else {
            d.push(buf[i]);
        }
        proof {
            assert(d@ =~= xor_delta(buf@, deltasource@, offset as int).take(i + 1));
        }
        i = i + 1;
    }
    proof {
        assert(d@ =~= xor_delta(buf@, deltasource@, offset as int));
    }
    d
}

/// Undoes `delta`: XORs `buf` in place with `deltasource[offset..]` where
/// they overlap.
fn undelta(buf: &mut Vec<u8>, deltasource: &[u8], offset: usize)
    requires
        offset <= deltasource@.len(),
    ensures
        final(buf)@ == xor_delta(old(buf)@, deltasource@, offset as int),
{
    let avail = deltasource.len() - offset;
    let delta_len = if avail < buf.len() {
        avail
    } else {
        buf.len()
    };
    let mut i: usize = 0;
    while i < delta_len
        invariant
            i <= delta_len,
            delta_len <= old(buf)@.len(),
            delta_len <= deltasource@.len() - offset,
            deltasource@.len() <= usize::MAX,
            buf@.len() == old(buf)@.len(),
            forall|j: int|
                0 <= j < buf@.len() ==> #[trigger] buf@[j] == if j < i {
                    xor_delta(old(buf)@, deltasource@, offset as int)[j]
                } else {
                    old(buf)@[j]
                },
        decreases delta_len - i,
    {
        let b = buf[i] ^ deltasource[offset + i];
        buf.set(i, b);
        i = i + 1;
    }
    proof {
        assert(buf@ =~= xor_delta(old(buf)@, deltasource@, offset as int));
    }
}

/// XORing twice with the same source gives the bytes back.
pub proof fn lemma_xor_twice(buf: Seq<u8>, src: Seq<u8>, offset: int)
    ensures
        xor_delta(xor_delta(buf, src, offset), src, offset) == buf,
{
    let once = xor_delta(buf, src, offset);
    let twice = xor_delta(once, src, offset);
    assert forall|i: int| 0 <= i < buf.len() implies twice[i] == buf[i] by {
        if offset + i < src.len() {
            let (a, b) = (buf[i], src[offset + i]);
            assert((a ^ b) ^ b == a) by (bit_vector);
        }
    }
    assert(twice =~= buf);
}

/// Appends the zero-run coding of `buf` to `out`.
fn zrle(buf: &[u8], out: &mut Vec<u8>)
    ensures
        final(out)@ == old(out)@ + zrle_spec(buf@),
{
    let mut zcount: u8 = 0;
    let mut i: usize = 0;
    while i < buf.len()
        invariant
            i <= buf@.len(),
            zcount < 255,
            old(out)@ + zrle_spec(buf@) == out@ + zrle_from(buf@, i as nat, zcount as nat),
        decreases buf@.len() - i,
    {
        let ghost pre = out@;
        let ghost z0 = zcount as nat;
        if buf[i] == 0 {
            if zcount == 254 {
                out.push(0);
                out.push(255);
                zcount = 0;
            } else {
                zcount = zcount + 1;
            }
        } else if zcount > 0 {
            out.push(0);
            out.push(zcount);
            out.push(buf[i]);
            zcount = 0;
        } else {
            out.push(buf[i]);
        }
        proof {
            assert(out@ + zrle_from(buf@, (i + 1) as nat, zcount as nat) =~= pre + zrle_from(
                buf@,
                i as nat,
                z0,
            ));
        }
        i = i + 1;
    }
    let ghost pre = out@;
    if zcount != 0 {
        out.push(0);
        out.push(zcount);
    }
    proof {
        assert(out@ =~= pre + zrle_from(buf@, i as nat, zcount as nat));
    }
}

/// What is left to decode: `s`, after a pending `0` when `was_zero`.
spec fn zrld_pending(was_zero: bool, s: Seq<u8>) -> Seq<u8> {
    if was_zero {
        zrld_spec(seq![0u8] + s)
    } else {
        zrld_spec(s)
    }
}

/// Decodes zero-run coding.
fn zrld(buf: &[u8]) -> (out: Vec<u8>)
    ensures
        out@ == zrld_spec(buf@),
{
    let mut was_zero = false;
    let mut out: Vec<u8> = Vec::new();
    let mut i: usize = 0;
    proof {
        assert(buf@.skip(0) =~= buf@);
    }
    while i < buf.len()
        invariant
            i <= buf@.len(),
            zrld_spec(buf@) == out@ + zrld_pending(was_zero, buf@.skip(i as int)),
        decreases buf@.len() - i,
    {
        let ghost s = buf@.skip(i as int);
        let ghost rest = buf@.skip(i + 1);
        proof {
            assert(s =~= seq![buf@[i as int]] + rest);
            assert(s.drop_first() =~= rest);
            assert((seq![0u8] + s).drop_first() =~= s);
            assert((seq![0u8] + s).skip(2) =~= rest);
        }
        let b = buf[i];
        if b == 0 {
            was_zero = true;
        } else if was_zero {
            let ghost pre = out@;
            let mut j: u8 = 0;
            while j < b
                invariant
                    j <= b,
                    out@ == pre + zeros(j as nat),
                decreases b - j,
            {
                out.push(0);
                proof {
                    assert(out@ =~= pre + zeros((j + 1) as nat));
                }
                j = j + 1;
            }
            was_zero = false;
        } else {
            out.push(b);
        }
        i = i + 1;
    }
    proof {
        assert(buf@.skip(i as int) =~= Seq::<u8>::empty());
        assert((seq![0u8] + Seq::<u8>::empty()).len() == 1);
        assert(out@ + Seq::<u8>::empty() =~= out@);
    }
    out
}

/// Decoding undoes zero-run coding: from byte `i` on with `z` zeros
/// pending, the coding stands for those zeros and the rest of `buf`.
pub proof fn lemma_zrle_round_trip(buf: Seq<u8>, i: nat, z: nat)
    requires
        i <= buf.len(),
        z < 255,
    ensures
        zrld_spec(zrle_from(buf, i, z)) == zeros(z) + buf.skip(i as int),
    decreases buf.len() - i,
{
    let e = zrle_from(buf, i, z);
    let here = buf.skip(i as int);
    if i >= buf.len() {
        assert(here =~= Seq::<u8>::empty());
        if z > 0 {
            assert(e.skip(2) =~= Seq::<u8>::empty());
            assert(zrld_spec(e) == zeros(z) + zrld_spec(e.skip(2)));
            assert(zeros(z) + Seq::<u8>::empty() =~= zeros(z));
        } else {
            assert(zeros(0) + here =~= Seq::<u8>::empty());
        }
    } else {
        let next = buf.skip(i + 1 as int);
        assert(here =~= seq![buf[i as int]] + next);
        lemma_zrle_round_trip(buf, i + 1, 0);
        let rest = zrle_from(buf, i + 1, 0);
        assert(zeros(0) + next =~= next);
        assert(zrld_spec(rest) == next);
        if buf[i as int] == 0 {
            if z + 1 >= 255 {
                assert(e.skip(2) =~= rest);
                assert(zrld_spec(e) == zeros(255) + zrld_spec(e.skip(2)));
                assert(zeros(255) + next =~= zeros(z) + here);
            } else {
                lemma_zrle_round_trip(buf, i + 1, z + 1);
                assert(zeros(z + 1) + next =~= zeros(z) + here);
            }
        } else {
            let b = buf[i as int];
            let t = seq![b] + rest;
            assert(t.drop_first() =~= rest);
            assert(zrld_spec(t) == seq![b] + zrld_spec(rest));
            if z > 0 {
                assert(e.skip(2) =~= t);
                assert(zrld_spec(e) == zeros(z) + zrld_spec(e.skip(2)));
                assert(zeros(z) + (seq![b] + next) =~= zeros(z) + here);
            } else {
                assert(e =~= t);
                assert(seq![b] + next =~= zeros(z) + here);
            }
        }
    }
}

/// Where `needle` laid over `haystack` matches best: the first offset with
/// the most equal bytes, and their number.
fn convolve(needle: &[u8], haystack: &[u8]) -> (r: (usize, usize))
    ensures
        r.0 == best_offset(needle@, haystack@, haystack@.len()).0,
        r.1 == best_offset(needle@, haystack@, haystack@.len()).1,
        r.0 < haystack@.len() || r.0 == 0,
{
    let mut best: (usize, usize) = (0, 0);
    let hl = haystack.len();
    let mut offset: usize = 0;
    while offset < hl
        invariant
            hl == haystack@.len(),
            offset <= hl,
            best.0 == best_offset(needle@, haystack@, offset as nat).0,
            best.1 == best_offset(needle@, haystack@, offset as nat).1,
            best.0 < offset || best.0 == 0,
        decreases hl - offset,
    {
        let k = if needle.len() < hl - offset {
            needle.len()
        } else {
            hl - offset
        };
        let mut score: usize = 0;
        let mut j: usize = 0;
        while j < k
            invariant
                k <= needle@.len(),
                hl == haystack@.len(),
                offset + k <= haystack@.len(),
                j <= k,
                score == match_count(needle@, haystack@, offset as int, j as nat),
                score <= j,
            decreases k - j,
        {
            if haystack[offset + j] == needle[j] {
                score = score + 1;
            }
            j = j + 1;
        }
        if score > best.1 {
            best = (offset, score);
        }
        offset = offset + 1;
    }
    best
}

/// The bytes `ConvolveCompressor::compress` writes for `buf` against the
/// history `c`: the entry chosen, the offset, and the zero-run coding of
/// the XOR delta (of `buf` itself when the history is empty).
pub open spec fn convolve_output(buf: Seq<u8>, c: Seq<(Seq<u8>, usize)>) -> Seq<u8> {
    let b = best_entry(buf, c, c.len());
    let d = if c.len() == 0 {
        buf
    } else {
        xor_delta(buf, c[b.0 as int].0, b.1 as int)
    };
    seq![b.0 as u8] + varint_encoding(b.1) + zrle_spec(d)
}

/// What `ConvolveCompressor::decompress` gives for `buf` against the
/// history `c`: the entry used and the record, or the error.
pub open spec fn convolve_decode(buf: Seq<u8>, c: Seq<(Seq<u8>, usize)>) -> Result<
    (nat, Seq<u8>),
    CodecError,
> {
    let (off, n) = uvarint_decode(buf.skip(1));
    let d = zrld_spec(buf.skip(1 + n));
    if buf.len() == 0 || n <= 0 {
        Err(CodecError::Malformed)
    } else if c.len() == 0 {
        Ok((0, d))
    } else if buf[0] >= c.len() || off > c[buf[0] as int].0.len() {
        Err(CodecError::DesyncState)
    } else {
        Ok((buf[0] as nat, xor_delta(d, c[buf[0] as int].0, off as int)))
    }
}

proof fn lemma_best_entry_in_range(needle: Seq<u8>, c: Seq<(Seq<u8>, usize)>, k: nat)
    requires
        k <= c.len(),
    ensures
        best_entry(needle, c, k).0 < k || best_entry(needle, c, k).0 == 0,
        best_entry(needle, c, k).0 < c.len() ==> best_entry(needle, c, k).1 <= c[best_entry(
            needle,
            c,
            k,
        ).0 as int].0.len(),
    decreases k,
{
    if k > 0 {
        lemma_best_entry_in_range(needle, c, (k - 1) as nat);
        lemma_best_offset_in_range(needle, c[k - 1].0, c[k - 1].0.len());
    }
}

proof fn lemma_best_offset_in_range(needle: Seq<u8>, hay: Seq<u8>, k: nat)
    ensures
        best_offset(needle, hay, k).0 < k || best_offset(needle, hay, k).0 == 0,
    decreases k,
{
    if k > 0 {
        lemma_best_offset_in_range(needle, hay, (k - 1) as nat);
    }
}

/// The XOR-delta codec: each record is coded against the history entry and
/// offset that match it best, as the XOR with that entry, zero runs
/// shortened.
pub struct ConvolveCompressor {}

impl ConvolveCompressor {
    /// Appends the coding of `buf` against `cache` to `out_buf`, and
    /// returns the entry it was coded against.
    pub fn compress(&mut self, buf: &[u8], out_buf: &mut Vec<u8>, cache: &VecCache) -> (r: usize)
        requires
            cache@.len() <= 256,
        ensures
            r == best_entry(buf@, cache_view(cache@), cache@.len() as nat).0,
            final(out_buf)@ == old(out_buf)@ + convolve_output(buf@, cache_view(cache@)),
    {
        let ghost c = cache_view(cache@);
        let mut best: (usize, usize, usize) = (0, 0, 0);
        let mut entry: usize = 0;
        while entry < cache.len()
            invariant
                c == cache_view(cache@),
                entry <= cache@.len(),
                best.0 == best_entry(buf@, c, entry as nat).0,
                best.1 == best_entry(buf@, c, entry as nat).1,
                best.2 == best_entry(buf@, c, entry as nat).2,
            decreases cache@.len() - entry,
        {
            let cres = convolve(buf, cache[entry].data.as_slice());
            assert(cache@[entry as int].data@ == c[entry as int].0);
            if cres.1 > best.2 {
                best = (entry, cres.0, cres.1);
            }
            entry = entry + 1;
        }
        proof {
            lemma_best_entry_in_range(buf@, c, c.len());
        }
        let delta = if cache.len() != 0 {
            delta(buf, cache[best.0].data.as_slice(), best.1)
        } else {
            let mut d: Vec<u8> = Vec::new();
            append_slice(&mut d, buf);
            d
        };
        out_buf.push(best.0 as u8);
        append_uvarint(out_buf, best.1 as u64);
        zrle(delta.as_slice(), out_buf);
        proof {
            assert(final(out_buf)@ =~= old(out_buf)@ + convolve_output(buf@, c));
        }
        best.0
    }

    /// Decodes one record coded against `cache` and appends it to
    /// `out_buf`; returns the entry it was coded against.
    pub fn decompress(&mut self, buf: &[u8], out_buf: &mut Vec<u8>, cache: &VecCache) -> (r: Result<
        usize,
        CodecError,
    >)
        ensures
            match convolve_decode(buf@, cache_view(cache@)) {
                Ok((k, rec)) => r == Ok::<usize, CodecError>(k as usize) && final(out_buf)@ == old(
                    out_buf,
                )@ + rec,
                Err(e) => r == Err::<usize, CodecError>(e) && final(out_buf)@ == old(out_buf)@,
            },
    {
        let ghost c = cache_view(cache@);
        if buf.len() == 0 {
            return Err(CodecError::Malformed);
        }
        let mut pos: usize = 1;
        let offset = read_uvarint(buf, &mut pos);
        proof {
            lemma_decode_within(buf@.skip(1));
        }
        let offset = match offset {
            Ok(v) => v,
            Err(e) => {
                return Err(e);
            },
        };
        let mut delta = zrld(&buf[pos..buf.len()]);
        proof {
            assert(buf@.subrange(pos as int, buf@.len() as int) =~= buf@.skip(pos as int));
        }
        if cache.len() == 0 {
            append_slice(out_buf, delta.as_slice());
            return Ok(0);
        }
        let k = buf[0] as usize;
        if k >= cache.len() {
            return Err(CodecError::DesyncState);
        }
        let src = cache[k].data.as_slice();
        assert(src@ == c[k as int].0);
        if offset > src.len() as u64 {
            return Err(CodecError::DesyncState);
        }
        undelta(&mut delta, src, offset as usize);
        append_slice(out_buf, delta.as_slice());
        Ok(k)
    }
}

/// Decompressing what `compress` wrote, against the same history, gives
/// back the record and the entry it was coded against.
pub proof fn lemma_convolve_round_trip(buf: Seq<u8>, c: Seq<(Seq<u8>, usize)>)
    requires
        c.len() <= 256,
        forall|i: int| 0 <= i < c.len() ==> #[trigger] c[i].0.len() <= usize::MAX,
    ensures
        convolve_decode(convolve_output(buf, c), c) == Ok::<(nat, Seq<u8>), CodecError>(
            (best_entry(buf, c, c.len()).0, buf),
        ),
{
    let b = best_entry(buf, c, c.len());
    lemma_best_entry_in_range(buf, c, c.len());
    let d = if c.len() == 0 {
        buf
    } else {
        xor_delta(buf, c[b.0 as int].0, b.1 as int)
    };
    let out = convolve_output(buf, c);
    let e = varint_encoding(b.1);
    let z = zrle_spec(d);
    assert(out.skip(1) =~= e + z);
    assert(b.1 < 0x1_0000_0000_0000_0000) by {
        if c.len() > 0 {
            assert(b.1 <= c[b.0 as int].0.len());
            assert(c[b.0 as int].0.len() <= usize::MAX);
        }
    }
    crate::varint::lemma_varint_round_trip(b.1 as u64, z);
    assert(out.skip(1 + e.len() as int) =~= z);
    lemma_zrle_round_trip(d, 0, 0);
    assert(zeros(0) + d.skip(0) =~= d);
    if c.len() > 0 {
        lemma_xor_twice(buf, c[b.0 as int].0, b.1 as int);
    }
}

} // verus!
