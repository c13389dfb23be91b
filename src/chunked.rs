use vstd::prelude::*;

use crate::cache::VecCache;
use crate::chunkmap::{append_slice, differs_back, emit_literal};
use crate::model::{
    fill, lemma_common_suffix, original, run_ok, runs_ok, segment_bytes,
    segment_of, Block, BlockType,
};
use crate::varint::{
    append_uvarint, lemma_decode_within, lemma_encoding_len, lemma_varint_round_trip, read_uvarint,
    uvarint_decode, varint_encoding,
};
use crate::CodecError;

verus! {

/// Chunk `k` of `needle`: its bytes `[4k, 4k + 4)`, fewer at the end.
pub open spec fn chunk_of(needle: Seq<u8>, k: int) -> Seq<u8> {
    if 4 * k + 4 <= needle.len() {
        needle.subrange(4 * k, 4 * k + 4)
    } else {
        needle.subrange(4 * k, needle.len() as int)
    }
}

/// The number of chunks of `needle`, the last one possibly short.
pub open spec fn chunk_count(needle: Seq<u8>) -> nat {
    (needle.len() + 3) / 4
}

/// One more than the first position at or after `i` where `hay` holds
/// `chunk` in four bytes; `0` if there is none.
pub open spec fn first_window_from(hay: Seq<u8>, chunk: Seq<u8>, i: nat) -> nat
    decreases hay.len() - i,
{
    if i + 4 > hay.len() {
        0
    } else if hay.subrange(i as int, i + 4 as int) == chunk {
        i + 1
    } else {
        first_window_from(hay, chunk, i + 1)
    }
}

/// Where chunk `chunk` is found in `hay` when the previous chunk was found
/// at `last` (one more than its position; `0` for not found): right after
/// the previous one if it is there, else at its first occurrence.
pub open spec fn match_next(hay: Seq<u8>, chunk: Seq<u8>, last: nat) -> nat {
    if last != 0 && last + 3 + 4 + 1 < hay.len() && hay.subrange(last + 3 as int, last + 7 as int) == chunk {
        last + 4
    } else {
        first_window_from(hay, chunk, 0)
    }
}

/// Where each of the first `k` chunks of `needle` is found in `hay`.
pub open spec fn chunk_results(hay: Seq<u8>, needle: Seq<u8>, k: nat) -> Seq<usize>
    decreases k,
{
    if k == 0 {
        seq![]
    } else {
        let prev = chunk_results(hay, needle, (k - 1) as nat);
        let last = if k == 1 {
            0
        } else {
            prev.last() as nat
        };
        prev.push(match_next(hay, chunk_of(needle, k - 1), last) as usize)
    }
}

/// A non-zero result names a window that holds the chunk.
pub proof fn lemma_first_window(hay: Seq<u8>, chunk: Seq<u8>, i: nat)
    ensures
        first_window_from(hay, chunk, i) != 0 ==> {
            let p = first_window_from(hay, chunk, i) - 1;
            p + 4 <= hay.len() && hay.subrange(p, p + 4) == chunk
        },
        first_window_from(hay, chunk, i) <= hay.len(),
    decreases hay.len() - i,
{
    if i + 4 <= hay.len() && hay.subrange(i as int, i + 4 as int) != chunk {
        lemma_first_window(hay, chunk, i + 1);
    }
}

proof fn lemma_chunk_results_len(hay: Seq<u8>, needle: Seq<u8>, k: nat)
    ensures
        chunk_results(hay, needle, k).len() == k,
    decreases k,
{
    if k > 0 {
        lemma_chunk_results_len(hay, needle, (k - 1) as nat);
    }
}

/// Whether the four bytes of `hay` at `p` equal `chunk`.
fn window_equals(hay: &[u8], p: usize, chunk: &[u8]) -> (r: bool)
    requires
        p + 4 <= hay@.len(),
    ensures
        r == (hay@.subrange(p as int, p + 4) == chunk@),
{
    if chunk.len() != 4 {
        return false;
    }
    let hl = hay.len();
    let mut j: usize = 0;
    while j < 4
        invariant
            j <= 4,
            chunk@.len() == 4,
            hl == hay@.len(),
            p + 4 <= hay@.len(),
            forall|t: int| 0 <= t < j ==> hay@[p + t] == chunk@[t],
        decreases 4 - j,
    {
        if hay[p + j] != chunk[j] {
            assert(hay@.subrange(p as int, p + 4)[j as int] != chunk@[j as int]);
            return false;
        }
        j = j + 1;
    }
    assert(hay@.subrange(p as int, p + 4) =~= chunk@);
    true
}

/// For each history entry, where each four-byte chunk of `needle` is found
/// in it: one more than the position, or `0` for nowhere.
fn chunk_match(needle: &[u8], haystacks: &VecCache) -> (results: Vec<Vec<usize>>)
    ensures
        results@.len() == haystacks@.len(),
        forall|i: int|
            0 <= i < haystacks@.len() ==> (#[trigger] results@[i])@ == chunk_results(
                haystacks@[i].data@,
                needle@,
                chunk_count(needle@),
            ),
{
    let mut results: Vec<Vec<usize>> = Vec::new();
    let n = needle.len();
    let count = n / 4 + if n % 4 == 0 {
        0
    } else {
        1
    };
    let mut h: usize = 0;
    while h < haystacks.len()
        invariant
            n == needle@.len(),
            count == chunk_count(needle@),
            h <= haystacks@.len(),
            results@.len() == h,
            forall|i: int|
                0 <= i < h ==> (#[trigger] results@[i])@ == chunk_results(
                    haystacks@[i].data@,
                    needle@,
                    count as nat,
                ),
        decreases haystacks@.len() - h,
    {
        let hay = haystacks[h].data.as_slice();
        let hl = hay.len();
        let mut chunks: Vec<usize> = Vec::new();
        let mut k: usize = 0;
        while k < count
            invariant
                n == needle@.len(),
                count == chunk_count(needle@),
                hl == hay@.len(),
                k <= count,
                chunks@ == chunk_results(hay@, needle@, k as nat),
                forall|t: int| 0 <= t < k ==> chunks@[t] <= hl,
            decreases count - k,
        {
            proof {
                lemma_chunk_results_len(hay@, needle@, k as nat);
            }
            assert(4 * k < n);
            let end = if n - 4 * k >= 4 {
                4 * k + 4
            } else {
                n
            };
            let chunk = &needle[4 * k..end];
            proof {
                assert(chunk@ == chunk_of(needle@, k as int));
            }
            let last = if k == 0 {
                0
            } else {
                chunks[k - 1]
            };
            let mut found: usize = 0;
            if last != 0 && hl > 8 && last < hl - 8 && window_equals(hay, last + 3, chunk) {
                found = last + 4;
            } else {
                let mut p: usize = 0;
                proof {
                    lemma_first_window(hay@, chunk@, 0);
                }
                while found == 0 && hl >= 4 && p <= hl - 4
                    invariant
                        hl == hay@.len(),
                        found == 0 ==> first_window_from(hay@, chunk@, 0) == first_window_from(
                            hay@,
                            chunk@,
                            p as nat,
                        ),
                        found != 0 ==> found == first_window_from(hay@, chunk@, 0),
                    decreases hl - p + (if found == 0 { 1int } else { 0int }),
                {
                    if window_equals(hay, p, chunk) {
                        found = p + 1;
                    } else {
                        p = p + 1;
                    }
                }
                proof {
                    lemma_first_window(hay@, chunk@, 0);
                }
            }
            proof {
                assert(found == match_next(hay@, chunk@, last as nat));
                lemma_first_window(hay@, chunk@, 0);
            }
            chunks.push(found);
            k = k + 1;
        }
        results.push(chunks);
        h = h + 1;
    }
    results
}

/// The bytes of each entry of a history.
pub open spec fn cache_lines(c: Seq<crate::cache::CacheEntry>) -> Seq<Seq<u8>> {
    Seq::new(c.len(), |i: int| c[i].data@)
}

/// Every non-zero result names a window of `hay` that holds the whole
/// four-byte chunk.
pub proof fn lemma_results_valid(hay: Seq<u8>, needle: Seq<u8>, k: nat)
    requires
        hay.len() <= usize::MAX,
        k <= chunk_count(needle),
    ensures
        chunk_results(hay, needle, k).len() == k,
        forall|t: int|
            0 <= t < k && #[trigger] chunk_results(hay, needle, k)[t] != 0 ==> {
                let p = chunk_results(hay, needle, k)[t] - 1;
                &&& p + 4 <= hay.len()
                &&& 4 * t + 4 <= needle.len()
                &&& hay.subrange(p, p + 4) == needle.subrange(4 * t, 4 * t + 4)
            },
    decreases k,
{
    lemma_chunk_results_len(hay, needle, k);
    if k > 0 {
        lemma_results_valid(hay, needle, (k - 1) as nat);
        let prev = chunk_results(hay, needle, (k - 1) as nat);
        let last = if k == 1 {
            0
        } else {
            prev.last() as nat
        };
        let chunk = chunk_of(needle, k - 1);
        lemma_first_window(hay, chunk, 0);
        let x = match_next(hay, chunk, last);
        let all = chunk_results(hay, needle, k);
        assert(all == prev.push(x as usize));
        assert forall|t: int|
            0 <= t < k && #[trigger] all[t] != 0 implies {
                let p = all[t] - 1;
                &&& p + 4 <= hay.len()
                &&& 4 * t + 4 <= needle.len()
                &&& hay.subrange(p, p + 4) == needle.subrange(4 * t, 4 * t + 4)
            } by {
            if t < k - 1 {
                assert(all[t] == prev[t]);
            } else {
                assert(all[t] == x);
                let p = x - 1;
                if last != 0 && last + 3 + 4 + 1 < hay.len() && hay.subrange(
                    last + 3 as int,
                    last + 7 as int,
                ) == chunk {
                    assert(x == last + 4);
                } else {
                    assert(x == first_window_from(hay, chunk, 0));
                }
                assert(hay.subrange(p, p + 4) == chunk);
                assert(chunk.len() == 4);
                assert(4 * t < needle.len());
                assert(4 * t + 4 <= needle.len());
            }
        }
    }
}

/// `b` copies from line `hi`.
pub open spec fn on_line(b: Block, hi: usize) -> bool {
    match b.block_type {
        BlockType::Delta { line, .. } => line == hi,
        BlockType::Original => false,
    }
}

/// The end of the last of `runs`, or `pos` if there is none.
pub open spec fn runs_end(runs: Seq<Block>, pos: int) -> int {
    if runs.len() == 0 {
        pos
    } else {
        runs.last().needle_off + runs.last().len
    }
}

proof fn lemma_runs_push(lines: Seq<Seq<u8>>, needle: Seq<u8>, runs: Seq<Block>, pos: int, r: Block)
    requires
        runs_ok(lines, needle, runs, pos),
        run_ok(lines, needle, r),
        r.needle_off >= runs_end(runs, pos),
    ensures
        runs_ok(lines, needle, runs.push(r), pos),
        runs_end(runs.push(r), pos) == r.needle_off + r.len,
    decreases runs.len(),
{
    if runs.len() == 0 {
        assert(runs.push(r).drop_first() =~= Seq::<Block>::empty());
        assert(runs.push(r)[0] == r);
        assert(runs_ok(lines, needle, Seq::<Block>::empty(), r.needle_off + r.len));
    } else {
        let rest = runs.drop_first();
        lemma_runs_push(lines, needle, rest, runs[0].needle_off + runs[0].len, r);
        assert(runs.push(r).drop_first() =~= rest.push(r));
        assert(runs.push(r)[0] == runs[0]);
        if rest.len() > 0 {
            assert(rest.last() == runs.last());
        }
    }
}

proof fn lemma_runs_end_bound(lines: Seq<Seq<u8>>, needle: Seq<u8>, runs: Seq<Block>, pos: int)
    requires
        runs_ok(lines, needle, runs, pos),
    ensures
        pos <= runs_end(runs, pos) <= needle.len(),
    decreases runs.len(),
{
    if runs.len() > 0 {
        let rest = runs.drop_first();
        lemma_runs_end_bound(lines, needle, rest, runs[0].needle_off + runs[0].len);
        if rest.len() > 0 {
            assert(rest.last() == runs.last());
        }
    }
}

/// Turns the chunk results against entry `hi` into delta blocks: each run
/// of chunks found one after another in the entry becomes one block,
/// extended backwards as far as the bytes agree, short of the end of the
/// block before and of the entry's first byte.
fn expand_blocks(needle: &[u8], cache: &VecCache, hi: usize, result: &Vec<usize>) -> (runs: Vec<
    Block,
>)
    requires
        hi < cache@.len(),
        result@ == chunk_results(cache@[hi as int].data@, needle@, chunk_count(needle@)),
    ensures
        runs_ok(cache_lines(cache@), needle@, runs@, 0),
        forall|i: int|
            0 <= i < runs@.len() ==> on_line(#[trigger] runs@[i], hi),
{
    let ghost lines = cache_lines(cache@);
    let hay = cache[hi].data.as_slice();
    let hl = hay.len();
    let n = needle.len();
    let rl = result.len();
    proof {
        lemma_results_valid(hay@, needle@, chunk_count(needle@));
        assert(lines[hi as int] == hay@);
    }
    let mut runs: Vec<Block> = Vec::new();
    let mut ri: usize = 0;
    let mut last_end: usize = 0;
    while ri < rl
        invariant
            hl == hay@.len(),
            n == needle@.len(),
            rl == result@.len(),
            lines == cache_lines(cache@),
            hi < lines.len(),
            lines[hi as int] == hay@,
            ri <= rl,
            forall|t: int|
                0 <= t < rl && #[trigger] result@[t] != 0 ==> {
                    let p = result@[t] - 1;
                    &&& p + 4 <= hay@.len()
                    &&& 4 * t + 4 <= needle@.len()
                    &&& hay@.subrange(p, p + 4) == needle@.subrange(4 * t, 4 * t + 4)
                },
            runs_ok(lines, needle@, runs@, 0),
            runs_end(runs@, 0) == last_end,
            last_end <= 4 * ri,
            last_end <= n,
            forall|i: int|
                0 <= i < runs@.len() ==> on_line(#[trigger] runs@[i], hi),
        decreases rl - ri,
    {
        if result[ri] != 0 {
            let bi = ri;
            let offset = result[ri] - 1;
            let mut len: usize = 4;
            ri = ri + 1;
            while ri < rl && result[ri] >= 4 && result[ri] - 4 == result[ri - 1]
                invariant
                    hl == hay@.len(),
                    n == needle@.len(),
                    rl == result@.len(),
                    bi < ri <= rl,
                    len == 4 * (ri - bi),
                    offset + len <= hl,
                    4 * bi + len <= n,
                    result@[ri - 1] - 1 == offset + len - 4,
                    hay@.subrange(offset as int, offset + len) == needle@.subrange(
                        4 * bi as int,
                        4 * bi + len,
                    ),
                    forall|t: int|
                        0 <= t < rl && #[trigger] result@[t] != 0 ==> {
                            let p = result@[t] - 1;
                            &&& p + 4 <= hay@.len()
                            &&& 4 * t + 4 <= needle@.len()
                            &&& hay@.subrange(p, p + 4) == needle@.subrange(4 * t, 4 * t + 4)
                        },
                decreases rl - ri,
            {
                proof {
                    assert(result@[ri as int] != 0);
                    let p = result@[ri as int] - 1;
                    assert(p == offset + len);
                    assert(hay@.subrange(offset as int, offset + len + 4) =~= hay@.subrange(
                        offset as int,
                        offset + len,
                    ) + hay@.subrange(p, p + 4));
                    assert(needle@.subrange(4 * bi as int, 4 * bi + len + 4) =~= needle@.subrange(
                        4 * bi as int,
                        4 * bi + len,
                    ) + needle@.subrange(4 * ri as int, 4 * ri + 4));
                }
                len = len + 4;
                ri = ri + 1;
            }
            let start = 4 * bi;
            let right = start + len;
            // forward extension is bounded by the next chunk boundary, where the run
            // already ends, so only backward extension can add bytes
            let a = &needle[last_end..start];
            let b = &hay[0..offset];
            let back = differs_back(a, b);
            proof {
                lemma_common_suffix(a@, b@);
                let k = back as int;
                assert(a@.skip(a@.len() - k) =~= needle@.subrange(start - k, start as int));
                assert(b@.skip(b@.len() - k) =~= hay@.subrange(offset - k, offset as int));
                assert(hay@.subrange(offset - k, offset + len) =~= hay@.subrange(
                    offset - k,
                    offset as int,
                ) + hay@.subrange(offset as int, offset + len));
                assert(needle@.subrange(start - k, start + len) =~= needle@.subrange(
                    start - k,
                    start as int,
                ) + needle@.subrange(start as int, start + len));
            }
            let r = Block {
                block_type: BlockType::Delta { line: hi, offset: offset - back },
                needle_off: start - back,
                len: len + back,
            };
            proof {
                assert(run_ok(lines, needle@, r));
                lemma_runs_push(lines, needle@, runs@, 0, r);
            }
            runs.push(r);
            last_end = right;
        } else {
            ri = ri + 1;
            let ghost ri0 = ri;
            while ri < rl && result[ri] == 0
                invariant
                    rl == result@.len(),
                    ri0 <= ri <= rl,
                decreases rl - ri,
            {
                ri = ri + 1;
            }
        }
    }
    runs
}

/// Wire form of one block of the chunked coding: a copy is
/// `varint(offset + 1) varint(len)`, a literal `0 varint(len) bytes`.
pub open spec fn chunked_block_bytes(needle: Seq<u8>, b: Block) -> Seq<u8> {
    match b.block_type {
        BlockType::Delta { line, offset } => varint_encoding((offset + 1) as nat) + varint_encoding(
            b.len as nat,
        ),
        BlockType::Original => segment_bytes(segment_of(needle, b)),
    }
}

/// The chunked coding of the blocks `bs`, one after another.
pub open spec fn chunked_bytes(needle: Seq<u8>, bs: Seq<Block>) -> Seq<u8>
    decreases bs.len(),
{
    if bs.len() == 0 {
        seq![]
    } else {
        chunked_block_bytes(needle, bs[0]) + chunked_bytes(needle, bs.drop_first())
    }
}

/// Reads chunked blocks from `s`, copies taken from `hay`: the bytes they
/// stand for, or the first error.
pub open spec fn chunked_read(hay: Seq<u8>, s: Seq<u8>) -> Result<Seq<u8>, CodecError>
    decreases s.len(),
{
    if s.len() == 0 {
        Ok(seq![])
    } else if s[0] == 0 {
        let s1 = s.skip(1);
        let (len, n) = uvarint_decode(s1);
        if n <= 0 || n > s1.len() || len > s1.len() - n {
            Err(CodecError::Malformed)
        } else {
            match chunked_read(hay, s1.skip(n + len)) {
                Ok(t) => Ok(s1.subrange(n, n + len) + t),
                Err(e) => Err(e),
            }
        }
    } else {
        let (o, n1) = uvarint_decode(s);
        let s1 = s.skip(n1);
        let (len, n2) = uvarint_decode(s1);
        if n1 <= 0 || n1 > s.len() || n2 <= 0 || n2 > s1.len() || o == 0 {
            Err(CodecError::Malformed)
        } else if o - 1 + len > hay.len() {
            Err(CodecError::DesyncState)
        } else {
            match chunked_read(hay, s1.skip(n2)) {
                Ok(t) => Ok(hay.subrange(o - 1, o - 1 + len) + t),
                Err(e) => Err(e),
            }
        }
    }
}

/// What `ChunkedCompressor::decompress` gives for `buf` against the history
/// `c`: the entry used and the record, or the error.
pub open spec fn chunked_decode(buf: Seq<u8>, c: Seq<Seq<u8>>) -> Result<(nat, Seq<u8>), CodecError> {
    if buf.len() == 0 {
        Err(CodecError::Malformed)
    } else if c.len() == 0 {
        let s = buf.skip(2);
        let (len, n) = uvarint_decode(s);
        if buf.len() < 2 || n <= 0 || n > s.len() || len > s.len() - n {
            Err(CodecError::Malformed)
        } else {
            Ok((0, s.subrange(n, n + len)))
        }
    } else if buf[0] >= c.len() {
        Err(CodecError::DesyncState)
    } else {
        match chunked_read(c[buf[0] as int], buf.skip(1)) {
            Ok(out) => Ok((buf[0] as nat, out)),
            Err(e) => Err(e),
        }
    }
}

proof fn lemma_encoding_first_byte(x: nat)
    requires
        x >= 1,
    ensures
        varint_encoding(x)[0] != 0,
{
    lemma_encoding_len(x);
}

proof fn lemma_chunked_bytes_append(needle: Seq<u8>, a: Seq<Block>, b: Seq<Block>)
    ensures
        chunked_bytes(needle, a + b) == chunked_bytes(needle, a) + chunked_bytes(needle, b),
    decreases a.len(),
{
    if a.len() == 0 {
        assert(a + b =~= b);
        assert(chunked_bytes(needle, a) + chunked_bytes(needle, b) =~= chunked_bytes(needle, b));
    } else {
        lemma_chunked_bytes_append(needle, a.drop_first(), b);
        assert((a + b).drop_first() =~= a.drop_first() + b);
        assert((a + b)[0] == a[0]);
        assert(chunked_bytes(needle, a + b) =~= chunked_bytes(needle, a) + chunked_bytes(needle, b));
    }
}

proof fn lemma_chunked_single(needle: Seq<u8>, b: Block)
    ensures
        chunked_bytes(needle, seq![b]) == chunked_block_bytes(needle, b),
{
    assert(seq![b].drop_first() =~= Seq::<Block>::empty());
    assert(seq![b][0] == b);
    assert(chunked_bytes(needle, Seq::<Block>::empty()) == Seq::<u8>::empty());
    assert(chunked_block_bytes(needle, b) + Seq::<u8>::empty() =~= chunked_block_bytes(needle, b));
}

/// Reading one literal block, then the rest.
proof fn lemma_read_literal(hay: Seq<u8>, needle: Seq<u8>, off: int, len: int, rest: Seq<u8>)
    requires
        0 <= off,
        0 <= len,
        off + len <= needle.len(),
        needle.len() <= usize::MAX,
    ensures
        chunked_read(hay, chunked_block_bytes(needle, original(off, len)) + rest) == match chunked_read(
            hay,
            rest,
        ) {
            Ok(t) => Ok::<Seq<u8>, CodecError>(needle.subrange(off, off + len) + t),
            Err(e) => Err(e),
        },
{
    let x = needle.subrange(off, off + len);
    let e = varint_encoding(len as nat);
    lemma_encoding_len(len as nat);
    let s = chunked_block_bytes(needle, original(off, len)) + rest;
    assert(varint_encoding(0) == seq![0u8]);
    assert(s =~= seq![0u8] + (e + (x + rest)));
    let s1 = s.skip(1);
    assert(s1 =~= e + (x + rest));
    lemma_varint_round_trip(len as u64, x + rest);
    assert(s1.skip(e.len() + len) =~= rest);
    assert(s1.subrange(e.len() as int, e.len() + len) =~= x);
}

/// Reading one copy block, then the rest.
proof fn lemma_read_copy(hay: Seq<u8>, offset: nat, len: nat, rest: Seq<u8>)
    requires
        offset + len <= hay.len(),
        len > 0,
        hay.len() <= usize::MAX,
    ensures
        chunked_read(hay, varint_encoding((offset + 1) as nat) + varint_encoding(len) + rest) == match chunked_read(
            hay,
            rest,
        ) {
            Ok(t) => Ok::<Seq<u8>, CodecError>(hay.subrange(offset as int, (offset + len) as int) + t),
            Err(e) => Err(e),
        },
{
    let e1 = varint_encoding(offset + 1);
    let e2 = varint_encoding(len);
    lemma_encoding_len(offset + 1);
    lemma_encoding_len(len);
    lemma_encoding_first_byte(offset + 1);
    let s = e1 + e2 + rest;
    assert(s =~= e1 + (e2 + rest));
    assert(s[0] == e1[0]);
    lemma_varint_round_trip((offset + 1) as u64, e2 + rest);
    let s1 = s.skip(e1.len() as int);
    assert(s1 =~= e2 + rest);
    lemma_varint_round_trip(len as u64, rest);
    assert(s1.skip(e2.len() as int) =~= rest);
}

/// Reading back the chunked coding of the delta blocks `runs` on line `hi`,
/// gaps filled by literals, gives the needle from `pos` on.
#[verifier::rlimit(50)]
pub proof fn lemma_chunked_fill(
    lines: Seq<Seq<u8>>,
    hi: usize,
    needle: Seq<u8>,
    runs: Seq<Block>,
    pos: int,
)
    requires
        runs_ok(lines, needle, runs, pos),
        forall|i: int| 0 <= i < runs.len() ==> on_line(#[trigger] runs[i], hi),
        0 <= pos,
        needle.len() <= usize::MAX,
        hi < lines.len(),
        lines[hi as int].len() <= usize::MAX,
    ensures
        chunked_read(lines[hi as int], chunked_bytes(needle, fill(runs, pos, needle.len() as int)))
            == Ok::<Seq<u8>, CodecError>(needle.subrange(pos, needle.len() as int)),
    decreases runs.len(),
{
    let n = needle.len() as int;
    let hay = lines[hi as int];
    if runs.len() == 0 {
        if pos < n {
            let o = original(pos, n - pos);
            lemma_chunked_single(needle, o);
            lemma_read_literal(hay, needle, pos, n - pos, Seq::<u8>::empty());
            assert(chunked_block_bytes(needle, o) + Seq::<u8>::empty() =~= chunked_block_bytes(
                needle,
                o,
            ));
            assert(needle.subrange(pos, n) + Seq::<u8>::empty() =~= needle.subrange(pos, n));
        } else {
            assert(needle.subrange(pos, n) =~= Seq::<u8>::empty());
        }
    } else {
        let r = runs[0];
        let end = r.needle_off + r.len;
        let rest = runs.drop_first();
        assert forall|i: int| 0 <= i < rest.len() implies on_line(#[trigger] rest[i], hi) by {
            assert(rest[i] == runs[i + 1]);
        }
        assert(on_line(runs[0], hi));
        lemma_chunked_fill(lines, hi, needle, rest, end);
        let gap = if r.needle_off > pos {
            seq![original(pos, r.needle_off - pos)]
        } else {
            seq![]
        };
        let tail = fill(rest, end, n);
        lemma_chunked_bytes_append(needle, gap + seq![r], tail);
        lemma_chunked_bytes_append(needle, gap, seq![r]);
        lemma_chunked_single(needle, r);
        let tb = chunked_bytes(needle, tail);
        if let BlockType::Delta { line, offset } = r.block_type {
            lemma_read_copy(hay, offset as nat, r.len as nat, tb);
            assert(hay.subrange(offset as int, offset + r.len) == needle.subrange(
                r.needle_off as int,
                end,
            ));
            let rb = chunked_block_bytes(needle, r);
            if r.needle_off > pos {
                let o = original(pos, r.needle_off - pos);
                lemma_chunked_single(needle, o);
                assert(chunked_bytes(needle, gap) == chunked_block_bytes(needle, o));
                lemma_read_literal(hay, needle, pos, r.needle_off - pos, rb + tb);
                assert(chunked_block_bytes(needle, o) + rb + tb =~= chunked_block_bytes(needle, o)
                    + (rb + tb));
                assert(needle.subrange(pos, n) =~= needle.subrange(pos, r.needle_off as int)
                    + (needle.subrange(r.needle_off as int, end) + needle.subrange(end, n)));
            } else {
                assert(chunked_bytes(needle, gap) =~= Seq::<u8>::empty());
                assert(Seq::<u8>::empty() + rb + tb =~= rb + tb);
                assert(needle.subrange(pos, n) =~= needle.subrange(r.needle_off as int, end)
                    + needle.subrange(end, n));
            }
        }
    }
}

/// Writes the chunked coding of the delta blocks `runs` with the gaps
/// between them filled by literal blocks.
fn emit_chunked(
    needle: &[u8],
    runs: &Vec<Block>,
    out: &mut Vec<u8>,
    lines: Ghost<Seq<Seq<u8>>>,
    hi: usize,
)
    requires
        runs_ok(lines@, needle@, runs@, 0),
        forall|i: int| 0 <= i < runs@.len() ==> on_line(#[trigger] runs@[i], hi),
        needle@.len() <= usize::MAX,
        hi < lines@.len(),
        lines@[hi as int].len() <= usize::MAX,
    ensures
        final(out)@ == old(out)@ + chunked_bytes(needle@, fill(runs@, 0, needle@.len() as int)),
{
    let ghost n = needle@.len() as int;
    let ghost all = chunked_bytes(needle@, fill(runs@, 0, n));
    let mut i: usize = 0;
    let mut pos: usize = 0;
    proof {
        assert(runs@.skip(0) =~= runs@);
    }
    while i < runs.len()
        invariant
            n == needle@.len(),
            n <= usize::MAX,
            i <= runs@.len(),
            hi < lines@.len(),
            lines@[hi as int].len() <= usize::MAX,
            forall|j: int| 0 <= j < runs@.len() ==> on_line(#[trigger] runs@[j], hi),
            runs_ok(lines@, needle@, runs@.skip(i as int), pos as int),
            old(out)@ + all == out@ + chunked_bytes(
                needle@,
                fill(runs@.skip(i as int), pos as int, n),
            ),
        decreases runs@.len() - i,
    {
        let r = runs[i];
        let ghost rest = runs@.skip(i as int);
        assert(rest[0] == r);
        assert(on_line(runs@[i as int], hi));
        assert(rest.drop_first() =~= runs@.skip(i + 1));
        let ghost gap = if r.needle_off > pos {
            seq![original(pos as int, r.needle_off - pos)]
        } else {
            seq![]
        };
        let ghost tail = fill(runs@.skip(i + 1), r.needle_off + r.len, n);
        proof {
            lemma_chunked_bytes_append(needle@, gap + seq![r], tail);
            lemma_chunked_bytes_append(needle@, gap, seq![r]);
            lemma_chunked_single(needle@, r);
        }
        if r.needle_off > pos {
            emit_literal(out, needle, pos, r.needle_off - pos);
            proof {
                lemma_chunked_single(needle@, original(pos as int, r.needle_off - pos));
            }
        } else {
            proof {
                assert(chunked_bytes(needle@, gap) =~= Seq::<u8>::empty());
            }
        }
        if let BlockType::Delta { line, offset } = r.block_type {
            append_uvarint(out, (offset as u64) + 1);
            append_uvarint(out, r.len as u64);
        }
        pos = r.needle_off + r.len;
        i = i + 1;
    }
    if pos < needle.len() {
        emit_literal(out, needle, pos, needle.len() - pos);
        proof {
            assert(runs@.skip(i as int) =~= Seq::<Block>::empty());
            lemma_chunked_single(needle@, original(pos as int, n - pos));
        }
    } else {
        proof {
            assert(runs@.skip(i as int) =~= Seq::<Block>::empty());
        }
    }
}

/// The block codec that works against one history entry per record: the
/// entry where the most chunks of the record are found.
pub struct ChunkedCompressor {}

impl ChunkedCompressor {
    /// Appends the coding of `needle` against `cache` to `out_buf`, and
    /// returns the entry it was coded against. Decoding what was written
    /// against the same history gives `needle` back.
    pub fn compress(&self, needle: &[u8], out_buf: &mut Vec<u8>, cache: &VecCache) -> (r: usize)
        requires
            cache@.len() <= 256,
        ensures
            final(out_buf)@.take(old(out_buf)@.len() as int) == old(out_buf)@,
            chunked_decode(final(out_buf)@.skip(old(out_buf)@.len() as int), cache_lines(cache@))
                == Ok::<(nat, Seq<u8>), CodecError>((r as nat, needle@)),
            cache@.len() == 0 ==> final(out_buf)@ == old(out_buf)@ + seq![0u8, 0u8]
                + varint_encoding(needle@.len()) + needle@,
    {
        let ghost lines = cache_lines(cache@);
        let ghost start = old(out_buf)@.len() as int;
        let n = needle.len();
        if cache.len() == 0 {
            out_buf.push(0);
            emit_literal(out_buf, needle, 0, n);
            proof {
                let w = final(out_buf)@.skip(start);
                let e = varint_encoding(n as nat);
                lemma_encoding_len(n as nat);
                assert(needle@.subrange(0, n as int) =~= needle@);
                assert(varint_encoding(0) == seq![0u8]);
                assert(w =~= seq![0u8, 0u8] + e + needle@);
                assert(w.skip(2) =~= e + needle@);
                lemma_varint_round_trip(n as u64, needle@);
                assert(w.skip(2).subrange(e.len() as int, e.len() + n) =~= needle@);
                assert(final(out_buf)@.take(start) =~= old(out_buf)@);
                assert(final(out_buf)@ =~= old(out_buf)@ + seq![0u8, 0u8] + e + needle@);
            }
            return 0;
        }
        let matches = chunk_match(needle, cache);
        let mut counts: Vec<usize> = Vec::new();
        let mut max: usize = 0;
        let mut hi: usize = 0;
        while hi < matches.len()
            invariant
                counts@.len() == hi,
                hi <= matches@.len(),
            decreases matches@.len() - hi,
        {
            let m = &matches[hi];
            let mut c: usize = 0;
            let mut j: usize = 0;
            while j < m.len()
                invariant
                    j <= m@.len(),
                    c <= j,
                decreases m@.len() - j,
            {
                if m[j] != 0 {
                    c = c + 1;
                }
                j = j + 1;
            }
            if c > max {
                max = c;
            }
            counts.push(c);
            hi = hi + 1;
        }
        let mut best_score: usize = 0;
        let mut best_hi: usize = 0;
        let mut best_runs: Option<Vec<Block>> = None;
        let mut hi: usize = 0;
        while hi < matches.len()
            invariant
                matches@.len() == cache@.len(),
                counts@.len() == matches@.len(),
                hi <= matches@.len(),
                lines == cache_lines(cache@),
                cache@.len() <= 256,
                forall|i: int|
                    0 <= i < cache@.len() ==> (#[trigger] matches@[i])@ == chunk_results(
                        cache@[i].data@,
                        needle@,
                        chunk_count(needle@),
                    ),
                best_hi < cache@.len(),
                match best_runs {
                    Some(rs) => runs_ok(lines, needle@, rs@, 0) && forall|i: int|
                        0 <= i < rs@.len() ==> on_line(#[trigger] rs@[i], best_hi),
                    None => best_hi == 0,
                },
            decreases matches@.len() - hi,
        {
            if counts[hi] == max {
                let runs = expand_blocks(needle, cache, hi, &matches[hi]);
                let mut score: usize = 0;
                let mut j: usize = 0;
                while j < runs.len()
                    invariant
                        j <= runs@.len(),
                    decreases runs@.len() - j,
                {
                    score = score.saturating_add(runs[j].len);
                    j = j + 1;
                }
                if best_score <= score {
                    best_score = score;
                    best_hi = hi;
                    best_runs = Some(runs);
                }
            }
            hi = hi + 1;
        }
        let runs = match best_runs {
            Some(rs) => rs,
            None => Vec::new(),
        };
        out_buf.push(best_hi as u8);
        let ghost mid = out_buf@;
        let line_len = cache[best_hi].data.len();
        proof {
            assert(lines[best_hi as int] == cache@[best_hi as int].data@);
            assert(lines[best_hi as int].len() == line_len);
            assert(runs_ok(lines, needle@, Seq::<Block>::empty(), 0));
        }
        emit_chunked(needle, &runs, out_buf, Ghost(lines), best_hi);
        proof {
            let w = final(out_buf)@.skip(start);
            let body = chunked_bytes(needle@, fill(runs@, 0, n as int));
            assert(w =~= seq![best_hi as u8] + body);
            assert(w[0] == best_hi as u8);
            assert(w.skip(1) =~= body);
            assert(lines[best_hi as int] == cache@[best_hi as int].data@);
            lemma_chunked_fill(lines, best_hi, needle@, runs@, 0);
            assert(needle@.subrange(0, n as int) =~= needle@);
            assert(final(out_buf)@.take(start) =~= old(out_buf)@);
        }
        best_hi
    }

    /// Decodes one record coded against `cache` and appends it to
    /// `out_buf`; returns the entry it was coded against. On an error
    /// `out_buf` is left as it was.
    pub fn decompress(&self, buf: &[u8], out_buf: &mut Vec<u8>, haystacks: &VecCache) -> (r: Result<
        usize,
        CodecError,
    >)
        ensures
            match chunked_decode(buf@, cache_lines(haystacks@)) {
                Ok((k, rec)) => r == Ok::<usize, CodecError>(k as usize) && final(out_buf)@ == old(
                    out_buf,
                )@ + rec,
                Err(e) => r == Err::<usize, CodecError>(e) && final(out_buf)@ == old(out_buf)@,
            },
    {
        let ghost lines = cache_lines(haystacks@);
        let n = buf.len();
        if n == 0 {
            return Err(CodecError::Malformed);
        }
        if haystacks.len() == 0 {
            if n < 2 {
                return Err(CodecError::Malformed);
            }
            let mut p: usize = 2;
            let len = read_uvarint(buf, &mut p);
            proof {
                lemma_decode_within(buf@.skip(2));
            }
            let len = match len {
                Ok(v) => v,
                Err(e) => {
                    return Err(e);
                },
            };
            if len > (n - p) as u64 {
                return Err(CodecError::Malformed);
            }
            let bytes = &buf[p..p + len as usize];
            append_slice(out_buf, bytes);
            proof {
                assert(bytes@ =~= buf@.skip(2).subrange(p - 2, p - 2 + len));
            }
            return Ok(0);
        }
        let hi = buf[0] as usize;
        if hi >= haystacks.len() {
            return Err(CodecError::DesyncState);
        }
        let hay = haystacks[hi].data.as_slice();
        assert(hay@ == lines[hi as int]);
        let hl = hay.len();
        let mut tmp: Vec<u8> = Vec::new();
        let mut bi: usize = 1;
        proof {
            assert(buf@.skip(1) == buf@.skip(bi as int));
            match chunked_read(hay@, buf@.skip(1)) {
                Ok(t) => {
                    assert(tmp@ + t =~= t);
                },
                Err(e) => {},
            }
        }
        while bi < n
            invariant
                n == buf@.len(),
                hl == hay@.len(),
                1 <= bi <= n,
                lines == cache_lines(haystacks@),
                hi == buf@[0],
                hi < lines.len(),
                hay@ == lines[hi as int],
                out_buf@ == old(out_buf)@,
                chunked_read(hay@, buf@.skip(1)) == match chunked_read(hay@, buf@.skip(bi as int)) {
                    Ok(t) => Ok::<Seq<u8>, CodecError>(tmp@ + t),
                    Err(e) => Err(e),
                },
            decreases n - bi,
        {
            let ghost s = buf@.skip(bi as int);
            let ghost pre = tmp@;
            assert(s.len() > 0);
            assert(s[0] == buf@[bi as int]);
            if buf[bi] == 0 {
                let mut p = bi + 1;
                let len = read_uvarint(buf, &mut p);
                proof {
                    assert(s.skip(1) =~= buf@.skip(bi + 1));
                    lemma_decode_within(s.skip(1));
                }
                let len = match len {
                    Ok(v) => v,
                    Err(e) => {
                        proof {
                            assert(chunked_read(hay@, s) == Err::<Seq<u8>, CodecError>(e));
                        }
                        return Err(e);
                    },
                };
                if len > (n - p) as u64 {
                    proof {
                        let n1 = p - bi - 1;
                        assert(uvarint_decode(s.skip(1)).1 == n1);
                        assert(s.skip(1).len() - n1 == n - p);
                        assert(chunked_read(hay@, s) == Err::<Seq<u8>, CodecError>(
                            CodecError::Malformed,
                        ));
                    }
                    return Err(CodecError::Malformed);
                }
                let len = len as usize;
                append_slice(&mut tmp, &buf[p..p + len]);
                proof {
                    let n1 = p - bi - 1;
                    assert(s.skip(1).subrange(n1, n1 + len) =~= buf@.subrange(p as int, p + len));
                    assert(s.skip(1).skip(n1 + len) =~= buf@.skip(p + len));
                    match chunked_read(hay@, buf@.skip(p + len)) {
                        Ok(t) => {
                            assert(pre + (buf@.subrange(p as int, p + len) + t) =~= tmp@ + t);
                        },
                        Err(e) => {},
                    }
                }
                bi = p + len;
            } else {
                let mut p = bi;
                let o = read_uvarint(buf, &mut p);
                proof {
                    lemma_decode_within(s);
                }
                let o = match o {
                    Ok(v) => v,
                    Err(e) => {
                        return Err(e);
                    },
                };
                let ghost s1 = s.skip(p - bi);
                proof {
                    assert(s1 =~= buf@.skip(p as int));
                }
                let p1 = p;
                let len = read_uvarint(buf, &mut p);
                proof {
                    lemma_decode_within(s1);
                }
                let len = match len {
                    Ok(v) => v,
                    Err(e) => {
                        return Err(e);
                    },
                };
                if o == 0 {
                    return Err(CodecError::Malformed);
                }
                let offset = o - 1;
                if offset > hl as u64 || len > hl as u64 - offset {
                    return Err(CodecError::DesyncState);
                }
                let offset = offset as usize;
                let len = len as usize;
                append_slice(&mut tmp, &hay[offset..offset + len]);
                proof {
                    assert(s1.skip(p - p1) =~= buf@.skip(p as int));
                    match chunked_read(hay@, buf@.skip(p as int)) {
                        Ok(t) => {
                            assert(pre + (hay@.subrange(offset as int, offset + len) + t) =~= tmp@
                                + t);
                        },
                        Err(e) => {},
                    }
                }
                bi = p;
            }
        }
        proof {
            assert(buf@.skip(bi as int) =~= Seq::<u8>::empty());
            assert(tmp@ + Seq::<u8>::empty() =~= tmp@);
        }
        append_slice(out_buf, tmp.as_slice());
        Ok(hi)
    }
}

} // verus!
