use vstd::prelude::*;

use crate::store::Match;
use crate::varint::{lemma_encoding_len, lemma_varint_round_trip, uvarint_decode, varint_encoding};
use crate::CodecError;

verus! {

/// The most records the history holds.
pub const MAX_LINES: usize = 245;

/// Where the bytes of a block come from.
#[derive(Clone, Copy, Debug, PartialEq, Eq, Structural)]
pub enum BlockType {
    /// Copied from history line `line`, starting at byte `offset` of it.
    Delta { line: usize, offset: usize },
    /// Taken literally from the record.
    Original,
}

/// A stretch `[needle_off, needle_off + len)` of the record being encoded.
#[derive(Clone, Copy, Debug, PartialEq, Eq, Structural)]
pub struct Block {
    pub block_type: BlockType,
    pub needle_off: usize,
    pub len: usize,
}

/// One block as it stands on the wire.
pub enum Segment {
    Copy { line: nat, len: nat, offset: nat },
    Literal { bytes: Seq<u8> },
}

/// The history as both sides see it: line `i` holds `lines[i]`, whose hit
/// counter is `hits[i]`.
pub struct History {
    pub lines: Seq<Seq<u8>>,
    pub hits: Seq<usize>,
}

/// At most `MAX_LINES` lines, one hit counter each.
pub open spec fn history_wf(h: History) -> bool {
    &&& h.lines.len() <= MAX_LINES
    &&& h.hits.len() == h.lines.len()
}

/// The four bytes of `s` from `i` on.
pub open spec fn chunk_at(s: Seq<u8>, i: int) -> Seq<u8> {
    s.subrange(i, i + 4)
}

/// Length of the longest common prefix of `a` and `b`.
pub open spec fn common_prefix(a: Seq<u8>, b: Seq<u8>) -> nat
    decreases a.len(),
{
    if a.len() == 0 || b.len() == 0 || a[0] != b[0] {
        0
    } else {
        1 + common_prefix(a.drop_first(), b.drop_first())
    }
}

/// The shorter of the two lengths.
pub open spec fn min_len(a: Seq<u8>, b: Seq<u8>) -> nat {
    if a.len() < b.len() {
        a.len()
    } else {
        b.len()
    }
}

/// Scanning back from the ends of `a` and `b`: the number of equal bytes
/// before the `i`-th from the end, counting at most one less than the shorter
/// length (the first byte of either is never reached).
pub open spec fn suffix_scan(a: Seq<u8>, b: Seq<u8>, i: nat) -> nat
    decreases min_len(a, b) - i,
{
    if 1 <= i < min_len(a, b) && a[a.len() - i] == b[b.len() - i] {
        suffix_scan(a, b, i + 1)
    } else if i == 0 {
        0
    } else {
        (i - 1) as nat
    }
}

/// Number of equal trailing bytes of `a` and `b`, at most one less than the
/// shorter length.
pub open spec fn common_suffix(a: Seq<u8>, b: Seq<u8>) -> nat {
    suffix_scan(a, b, 1)
}

/// The common prefix is common, and no longer than either sequence.
pub proof fn lemma_common_prefix(a: Seq<u8>, b: Seq<u8>)
    ensures
        common_prefix(a, b) <= a.len(),
        common_prefix(a, b) <= b.len(),
        a.take(common_prefix(a, b) as int) == b.take(common_prefix(a, b) as int),
    decreases a.len(),
{
    let k = common_prefix(a, b);
    if !(a.len() == 0 || b.len() == 0 || a[0] != b[0]) {
        lemma_common_prefix(a.drop_first(), b.drop_first());
        assert(a.take(k as int) =~= seq![a[0]] + a.drop_first().take(k - 1));
        assert(b.take(k as int) =~= seq![b[0]] + b.drop_first().take(k - 1));
    } else {
        assert(a.take(0) =~= b.take(0));
    }
}

spec fn same_from_end(a: Seq<u8>, b: Seq<u8>, j: int) -> bool {
    a[a.len() - j] == b[b.len() - j]
}

proof fn lemma_suffix_scan(a: Seq<u8>, b: Seq<u8>, i: nat)
    requires
        1 <= i,
        i <= min_len(a, b) || i == 1,
        forall|j: int| 1 <= j < i ==> #[trigger] same_from_end(a, b, j),
    ensures
        suffix_scan(a, b, i) <= min_len(a, b),
        forall|j: int| 1 <= j <= suffix_scan(a, b, i) ==> #[trigger] same_from_end(a, b, j),
    decreases min_len(a, b) - i,
{
    if 1 <= i < min_len(a, b) && a[a.len() - i] == b[b.len() - i] {
        lemma_suffix_scan(a, b, i + 1);
    }
}

/// The common suffix is common, and shorter than either sequence (or empty).
pub proof fn lemma_common_suffix(a: Seq<u8>, b: Seq<u8>)
    ensures
        common_suffix(a, b) <= a.len(),
        common_suffix(a, b) <= b.len(),
        a.skip(a.len() - common_suffix(a, b)) == b.skip(b.len() - common_suffix(a, b)),
{
    lemma_suffix_scan(a, b, 1);
    let k = common_suffix(a, b);
    let sa = a.skip(a.len() - k);
    let sb = b.skip(b.len() - k);
    assert forall|j: int| 0 <= j < k implies sa[j] == sb[j] by {
        assert(same_from_end(a, b, k - j));
        assert(sa[j] == a[a.len() - (k - j)]);
        assert(sb[j] == b[b.len() - (k - j)]);
    }
    assert(sa =~= sb);
}

/// `m` is a site of the chunk `ci` of the needle: its four bytes in history
/// equal the needle's bytes `[4 ci, 4 ci + 4)`.
pub open spec fn is_site(lines: Seq<Seq<u8>>, needle: Seq<u8>, ci: int, m: Match) -> bool {
    &&& m.line < lines.len()
    &&& m.offset + 4 <= lines[m.line as int].len()
    &&& 4 * ci + 4 <= needle.len()
    &&& chunk_at(lines[m.line as int], m.offset as int) == chunk_at(needle, 4 * ci)
}


/// How far a match at site `m` of chunk `ci` extends backwards, not past
/// `last_end` in the needle.
pub open spec fn back_len(
    lines: Seq<Seq<u8>>,
    needle: Seq<u8>,
    ci: int,
    last_end: int,
    m: Match,
) -> nat {
    common_suffix(needle.subrange(last_end, 4 * ci), lines[m.line as int].take(m.offset as int))
}

/// How far a match at site `m` of chunk `ci` extends forwards past the chunk.
pub open spec fn fwd_len(lines: Seq<Seq<u8>>, needle: Seq<u8>, ci: int, m: Match) -> nat {
    common_prefix(needle.skip(4 * ci + 4), lines[m.line as int].skip(m.offset + 4))
}

/// The delta block that site `m` of chunk `ci` gives, extended both ways.
pub open spec fn candidate(
    lines: Seq<Seq<u8>>,
    needle: Seq<u8>,
    ci: int,
    last_end: int,
    m: Match,
) -> Block {
    let back = back_len(lines, needle, ci, last_end, m);
    let fwd = fwd_len(lines, needle, ci, m);
    Block {
        block_type: BlockType::Delta { line: m.line, offset: (m.offset - back) as usize },
        needle_off: (4 * ci - back) as usize,
        len: (4 + back + fwd) as usize,
    }
}

/// Site `m1` is at least as good as `m2`: a longer block, or as long and a
/// lower line, or the same line and a lower offset.
pub open spec fn preferred(
    lines: Seq<Seq<u8>>,
    needle: Seq<u8>,
    ci: int,
    last_end: int,
    m1: Match,
    m2: Match,
) -> bool {
    let l1 = 4 + back_len(lines, needle, ci, last_end, m1) + fwd_len(lines, needle, ci, m1);
    let l2 = 4 + back_len(lines, needle, ci, last_end, m2) + fwd_len(lines, needle, ci, m2);
    l1 > l2 || (l1 == l2 && (m1.line < m2.line || (m1.line == m2.line && m1.offset <= m2.offset)))
}

/// `m` is the site of chunk `ci` that the encoder picks.
pub open spec fn is_best(
    lines: Seq<Seq<u8>>,
    needle: Seq<u8>,
    ci: int,
    last_end: int,
    m: Match,
) -> bool {
    &&& is_site(lines, needle, ci, m)
    &&& forall|m2: Match|
        #[trigger] is_site(lines, needle, ci, m2) ==> preferred(lines, needle, ci, last_end, m, m2)
}

/// Some site of chunk `ci` is best.
pub open spec fn has_best(lines: Seq<Seq<u8>>, needle: Seq<u8>, ci: int, last_end: int) -> bool {
    exists|m: Match| is_best(lines, needle, ci, last_end, m)
}

/// The delta blocks the greedy pass finds from chunk `ci` on, given that the
/// previous block ended at `last_end`.
pub open spec fn plan_from(lines: Seq<Seq<u8>>, needle: Seq<u8>, ci: nat, last_end: nat) -> Seq<
    Block,
>
    decreases (if ci >= needle.len() / 4 { 0 } else { needle.len() / 4 - ci }),
{
    if ci >= needle.len() / 4 {
        seq![]
    } else if !has_best(lines, needle, ci as int, last_end as int) {
        plan_from(lines, needle, ci + 1, last_end)
    } else {
        let m = choose|m: Match| is_best(lines, needle, ci as int, last_end as int, m);
        let fwd = fwd_len(lines, needle, ci as int, m);
        // the next chunk is the first that starts at or after the block's end
        seq![candidate(lines, needle, ci as int, last_end as int, m)] + plan_from(
            lines,
            needle,
            ci + 1 + (fwd + 3) / 4,
            4 * ci + 4 + fwd,
        )
    }
}

/// `b` copies `len > 0` bytes of history that equal the needle's bytes it
/// stands for.
pub open spec fn run_ok(lines: Seq<Seq<u8>>, needle: Seq<u8>, b: Block) -> bool {
    match b.block_type {
        BlockType::Delta { line, offset } => {
            &&& line < lines.len()
            &&& offset + b.len <= lines[line as int].len()
            &&& b.needle_off + b.len <= needle.len()
            &&& b.len > 0
            &&& lines[line as int].subrange(offset as int, offset + b.len) == needle.subrange(
                b.needle_off as int,
                b.needle_off + b.len,
            )
        },
        BlockType::Original => false,
    }
}

/// `runs` are valid delta blocks in needle order, not overlapping, the first
/// starting at or after `pos`.
pub open spec fn runs_ok(lines: Seq<Seq<u8>>, needle: Seq<u8>, runs: Seq<Block>, pos: int) -> bool
    decreases runs.len(),
{
    if runs.len() == 0 {
        pos <= needle.len()
    } else {
        &&& run_ok(lines, needle, runs[0])
        &&& runs[0].needle_off >= pos
        &&& runs_ok(lines, needle, runs.drop_first(), runs[0].needle_off + runs[0].len)
    }
}

/// The greedy pass gives valid, ordered, non-overlapping delta blocks.
pub proof fn lemma_plan_ok(lines: Seq<Seq<u8>>, needle: Seq<u8>, ci: nat, last_end: nat)
    requires
        last_end <= 4 * ci,
        last_end <= needle.len(),
        needle.len() <= usize::MAX,
    ensures
        runs_ok(lines, needle, plan_from(lines, needle, ci, last_end), last_end as int),
    decreases (if ci >= needle.len() / 4 { 0 } else { needle.len() / 4 - ci }),
{
    if ci >= needle.len() / 4 {
    } else if !has_best(lines, needle, ci as int, last_end as int) {
        lemma_plan_ok(lines, needle, ci + 1, last_end);
    } else {
        let m = choose|m: Match| is_best(lines, needle, ci as int, last_end as int, m);
        let line = lines[m.line as int];
        let off = m.offset as int;
        let c = 4 * ci as int;
        let back = back_len(lines, needle, ci as int, last_end as int, m) as int;
        let fwd = fwd_len(lines, needle, ci as int, m) as int;
        let a = needle.subrange(last_end as int, c);
        let b = line.take(off);
        let p = needle.skip(c + 4);
        let q = line.skip(off + 4);
        lemma_common_suffix(a, b);
        lemma_common_prefix(p, q);
        assert(a.skip(a.len() - back) =~= needle.subrange(c - back, c));
        assert(b.skip(b.len() - back) =~= line.subrange(off - back, off));
        assert(p.take(fwd) =~= needle.subrange(c + 4, c + 4 + fwd));
        assert(q.take(fwd) =~= line.subrange(off + 4, off + 4 + fwd));
        assert(line.subrange(off - back, off + 4 + fwd) =~= line.subrange(off - back, off)
            + chunk_at(line, off) + line.subrange(off + 4, off + 4 + fwd));
        assert(needle.subrange(c - back, c + 4 + fwd) =~= needle.subrange(c - back, c)
            + chunk_at(needle, c) + needle.subrange(c + 4, c + 4 + fwd));
        let r = candidate(lines, needle, ci as int, last_end as int, m);
        assert(run_ok(lines, needle, r));
        let rest = plan_from(lines, needle, ci + 1 + (fwd as nat + 3) / 4, (c + 4 + fwd) as nat);
        lemma_plan_ok(lines, needle, ci + 1 + (fwd as nat + 3) / 4, (c + 4 + fwd) as nat);
        assert((seq![r] + rest).drop_first() =~= rest);
    }
}

/// The literal block `[off, off + len)`.
pub open spec fn original(off: int, len: int) -> Block {
    Block { block_type: BlockType::Original, needle_off: off as usize, len: len as usize }
}

/// The delta blocks `runs` with the gaps before, between and after them
/// filled by literal blocks, from needle offset `pos` up to `n`.
pub open spec fn fill(runs: Seq<Block>, pos: int, n: int) -> Seq<Block>
    decreases runs.len(),
{
    if runs.len() == 0 {
        if pos < n {
            seq![original(pos, n - pos)]
        } else {
            seq![]
        }
    } else {
        let r = runs[0];
        let gap = if r.needle_off > pos {
            seq![original(pos, r.needle_off - pos)]
        } else {
            seq![]
        };
        gap + seq![r] + fill(runs.drop_first(), r.needle_off + r.len, n)
    }
}

/// The blocks the encoder emits for `needle`.
pub open spec fn encode_blocks(lines: Seq<Seq<u8>>, needle: Seq<u8>) -> Seq<Block> {
    fill(plan_from(lines, needle, 0, 0), 0, needle.len() as int)
}

/// A block as it goes on the wire.
pub open spec fn segment_of(needle: Seq<u8>, b: Block) -> Segment {
    match b.block_type {
        BlockType::Delta { line, offset } => Segment::Copy {
            line: line as nat,
            len: b.len as nat,
            offset: offset as nat,
        },
        BlockType::Original => Segment::Literal {
            bytes: needle.subrange(b.needle_off as int, b.needle_off + b.len),
        },
    }
}

/// The blocks `bs` as they go on the wire.
pub open spec fn segments_of(needle: Seq<u8>, bs: Seq<Block>) -> Seq<Segment>
    decreases bs.len(),
{
    if bs.len() == 0 {
        seq![]
    } else {
        seq![segment_of(needle, bs[0])] + segments_of(needle, bs.drop_first())
    }
}

/// Wire form of one block: `varint(line + 1) varint(len) varint(offset)` for
/// a copy, `0 varint(len) bytes` for a literal.
pub open spec fn segment_bytes(s: Segment) -> Seq<u8> {
    match s {
        Segment::Copy { line, len, offset } => varint_encoding(line + 1) + varint_encoding(len)
            + varint_encoding(offset),
        Segment::Literal { bytes } => varint_encoding(0) + varint_encoding(bytes.len()) + bytes,
    }
}

/// The wire form of `ss`, one block after another.
pub open spec fn segments_bytes(ss: Seq<Segment>) -> Seq<u8>
    decreases ss.len(),
{
    if ss.len() == 0 {
        seq![]
    } else {
        segment_bytes(ss[0]) + segments_bytes(ss.drop_first())
    }
}

/// The bytes one block stands for.
pub open spec fn segment_output(lines: Seq<Seq<u8>>, s: Segment) -> Seq<u8> {
    match s {
        Segment::Copy { line, len, offset } => lines[line as int].subrange(
            offset as int,
            (offset + len) as int,
        ),
        Segment::Literal { bytes } => bytes,
    }
}

/// The bytes the blocks `ss` stand for, one after another.
pub open spec fn segments_output(lines: Seq<Seq<u8>>, ss: Seq<Segment>) -> Seq<u8>
    decreases ss.len(),
{
    if ss.len() == 0 {
        seq![]
    } else {
        segment_output(lines, ss[0]) + segments_output(lines, ss.drop_first())
    }
}

/// Reads one block from the start of `s`: the block and the number of bytes
/// it takes, or the first error met.
pub open spec fn parse_block(lines: Seq<Seq<u8>>, s: Seq<u8>) -> Result<(Segment, int), CodecError> {
    let (tag, n1) = uvarint_decode(s);
    let s1 = s.skip(n1);
    let (len, n2) = uvarint_decode(s1);
    let s2 = s1.skip(n2);
    let (offset, n3) = uvarint_decode(s2);
    if n1 <= 0 {
        Err(CodecError::Malformed)
    } else if tag == 0 {
        if n2 <= 0 || len > s2.len() {
            Err(CodecError::Malformed)
        } else {
            Ok((Segment::Literal { bytes: s2.take(len as int) }, n1 + n2 + len))
        }
    } else if tag - 1 >= lines.len() {
        Err(CodecError::DesyncState)
    } else if n2 <= 0 || n3 <= 0 {
        Err(CodecError::Malformed)
    } else if offset + len > lines[tag - 1].len() {
        Err(CodecError::DesyncState)
    } else {
        Ok(
            (
                Segment::Copy { line: (tag - 1) as nat, len: len as nat, offset: offset as nat },
                n1 + n2 + n3,
            ),
        )
    }
}

/// Reads the blocks of one record from `s`: the first error met, or the
/// blocks.
pub open spec fn parse_segments(lines: Seq<Seq<u8>>, s: Seq<u8>) -> Result<
    Seq<Segment>,
    CodecError,
>
    decreases s.len(),
{
    if s.len() == 0 {
        Ok(seq![])
    } else {
        match parse_block(lines, s) {
            Err(e) => Err(e),
            Ok((seg, n)) => if n <= 0 || n > s.len() {
                Err(CodecError::Malformed)
            } else {
                match parse_segments(lines, s.skip(n)) {
                    Ok(t) => Ok(seq![seg] + t),
                    Err(e) => Err(e),
                }
            },
        }
    }
}

/// The copies refer to bytes that `lines` holds, and every number fits in
/// 64 bits.
pub open spec fn segments_ok(lines: Seq<Seq<u8>>, ss: Seq<Segment>) -> bool {
    forall|i: int| 0 <= i < ss.len() ==> segment_ok(lines, #[trigger] ss[i])
}

/// `s` refers to bytes that `lines` holds, and its numbers fit in 64 bits.
pub open spec fn segment_ok(lines: Seq<Seq<u8>>, s: Segment) -> bool {
    match s {
        Segment::Copy { line, len, offset } => {
            &&& line < lines.len()
            &&& offset + len <= lines[line as int].len()
            &&& line + 1 <= u64::MAX
            &&& len <= u64::MAX
            &&& offset <= u64::MAX
        },
        Segment::Literal { bytes } => bytes.len() <= u64::MAX,
    }
}

/// `segments_of` distributes over concatenation.
pub proof fn lemma_segments_of_append(needle: Seq<u8>, a: Seq<Block>, b: Seq<Block>)
    ensures
        segments_of(needle, a + b) == segments_of(needle, a) + segments_of(needle, b),
    decreases a.len(),
{
    if a.len() == 0 {
        assert(a + b =~= b);
        assert(segments_of(needle, a) + segments_of(needle, b) =~= segments_of(needle, b));
    } else {
        lemma_segments_of_append(needle, a.drop_first(), b);
        assert((a + b).drop_first() =~= a.drop_first() + b);
        assert((a + b)[0] == a[0]);
        assert(segments_of(needle, a + b) =~= segments_of(needle, a) + segments_of(needle, b));
    }
}

/// `segments_output` distributes over concatenation.
pub proof fn lemma_segments_output_append(lines: Seq<Seq<u8>>, a: Seq<Segment>, b: Seq<Segment>)
    ensures
        segments_output(lines, a + b) == segments_output(lines, a) + segments_output(lines, b),
    decreases a.len(),
{
    if a.len() == 0 {
        assert(a + b =~= b);
        assert(segments_output(lines, a) + segments_output(lines, b) =~= segments_output(
            lines,
            b,
        ));
    } else {
        lemma_segments_output_append(lines, a.drop_first(), b);
        assert((a + b).drop_first() =~= a.drop_first() + b);
        assert((a + b)[0] == a[0]);
        assert(segments_output(lines, a + b) =~= segments_output(lines, a) + segments_output(
            lines,
            b,
        ));
    }
}

/// `segments_bytes` distributes over concatenation.
pub proof fn lemma_segments_bytes_append(a: Seq<Segment>, b: Seq<Segment>)
    ensures
        segments_bytes(a + b) == segments_bytes(a) + segments_bytes(b),
    decreases a.len(),
{
    if a.len() == 0 {
        assert(a + b =~= b);
        assert(segments_bytes(a) + segments_bytes(b) =~= segments_bytes(b));
    } else {
        lemma_segments_bytes_append(a.drop_first(), b);
        assert((a + b).drop_first() =~= a.drop_first() + b);
        assert((a + b)[0] == a[0]);
        assert(segments_bytes(a + b) =~= segments_bytes(a) + segments_bytes(b));
    }
}

/// The wire form, output and bytes of a single block.
pub proof fn lemma_single(lines: Seq<Seq<u8>>, needle: Seq<u8>, b: Block)
    ensures
        segments_of(needle, seq![b]) == seq![segment_of(needle, b)],
        segments_output(lines, seq![segment_of(needle, b)]) == segment_output(
            lines,
            segment_of(needle, b),
        ),
        segments_bytes(seq![segment_of(needle, b)]) == segment_bytes(segment_of(needle, b)),
{
    let x = segment_of(needle, b);
    assert(seq![b].drop_first() =~= Seq::<Block>::empty());
    assert(segments_of(needle, Seq::<Block>::empty()) == Seq::<Segment>::empty());
    assert(seq![x] + Seq::<Segment>::empty() =~= seq![x]);
    assert(seq![x].drop_first() =~= Seq::<Segment>::empty());
    assert(segments_output(lines, Seq::<Segment>::empty()) == Seq::<u8>::empty());
    assert(segment_output(lines, x) + Seq::<u8>::empty() =~= segment_output(lines, x));
    assert(segments_bytes(Seq::<Segment>::empty()) == Seq::<u8>::empty());
    assert(segment_bytes(x) + Seq::<u8>::empty() =~= segment_bytes(x));
}

/// Filling the gaps between valid delta blocks gives blocks that stand for
/// the needle from `pos` on, and refer only to history that exists.
pub proof fn lemma_fill(lines: Seq<Seq<u8>>, needle: Seq<u8>, runs: Seq<Block>, pos: int)
    requires
        runs_ok(lines, needle, runs, pos),
        0 <= pos,
        needle.len() <= usize::MAX,
        lines.len() <= MAX_LINES,
    ensures
        segments_output(lines, segments_of(needle, fill(runs, pos, needle.len() as int)))
            == needle.subrange(pos, needle.len() as int),
        segments_ok(lines, segments_of(needle, fill(runs, pos, needle.len() as int))),
    decreases runs.len(),
{
    let n = needle.len() as int;
    if runs.len() == 0 {
        if pos < n {
            let o = original(pos, n - pos);
            lemma_single(lines, needle, o);
        } else {
            assert(needle.subrange(pos, n) =~= Seq::<u8>::empty());
        }
    } else {
        let r = runs[0];
        let end = r.needle_off + r.len;
        let gap = if r.needle_off > pos {
            seq![original(pos, r.needle_off - pos)]
        } else {
            seq![]
        };
        let rest = fill(runs.drop_first(), end, n);
        lemma_fill(lines, needle, runs.drop_first(), end);
        lemma_segments_of_append(needle, gap + seq![r], rest);
        lemma_segments_of_append(needle, gap, seq![r]);
        let sg = segments_of(needle, gap);
        let sr = segments_of(needle, seq![r]);
        let st = segments_of(needle, rest);
        lemma_single(lines, needle, r);
        lemma_segments_output_append(lines, sg + sr, st);
        lemma_segments_output_append(lines, sg, sr);
        if r.needle_off > pos {
            let o = original(pos, r.needle_off - pos);
            lemma_single(lines, needle, o);
        } else {
            assert(sg =~= Seq::<Segment>::empty());
        }
        assert(needle.subrange(pos, n) =~= needle.subrange(pos, r.needle_off as int)
            + needle.subrange(r.needle_off as int, end) + needle.subrange(end, n));
        let all = sg + sr + st;
        assert(segment_ok(lines, sr[0]));
        assert(forall|i: int| 0 <= i < sg.len() ==> segment_ok(lines, #[trigger] sg[i]));
        assert forall|i: int| 0 <= i < all.len() implies segment_ok(lines, #[trigger] all[i]) by {
            if i >= sg.len() + sr.len() {
                assert(all[i] == st[i - sg.len() - sr.len()]);
            } else if i >= sg.len() {
                assert(all[i] == sr[i - sg.len()]);
            } else {
                assert(all[i] == sg[i]);
            }
        }
    }
}

/// Reading back the wire form of valid blocks gives the same blocks.
pub proof fn lemma_parse_bytes(lines: Seq<Seq<u8>>, ss: Seq<Segment>)
    requires
        segments_ok(lines, ss),
    ensures
        parse_segments(lines, segments_bytes(ss)) == Ok::<Seq<Segment>, CodecError>(ss),
    decreases ss.len(),
{
    if ss.len() > 0 {
        let rest = ss.drop_first();
        assert(segments_ok(lines, rest)) by {
            assert forall|i: int| 0 <= i < rest.len() implies segment_ok(lines, #[trigger] rest[i]) by {
                assert(rest[i] == ss[i + 1]);
            }
        }
        assert(segment_ok(lines, ss[0]));
        lemma_parse_bytes(lines, rest);
        lemma_parse_one(lines, ss[0], segments_bytes(rest), rest);
        assert(seq![ss[0]] + rest =~= ss);
    } else {
        assert(ss =~= Seq::<Segment>::empty());
    }
}

proof fn lemma_parse_one(lines: Seq<Seq<u8>>, seg: Segment, tail: Seq<u8>, t: Seq<Segment>)
    requires
        segment_ok(lines, seg),
        parse_segments(lines, tail) == Ok::<Seq<Segment>, CodecError>(t),
    ensures
        parse_segments(lines, segment_bytes(seg) + tail) == Ok::<Seq<Segment>, CodecError>(
            seq![seg] + t,
        ),
{
    match seg {
        Segment::Copy { line, len, offset } => lemma_parse_copy(lines, line, len, offset, tail, t),
        Segment::Literal { bytes } => lemma_parse_literal(lines, bytes, tail, t),
    }
}

proof fn lemma_parse_copy(
    lines: Seq<Seq<u8>>,
    line: nat,
    len: nat,
    offset: nat,
    tail: Seq<u8>,
    t: Seq<Segment>,
)
    requires
        segment_ok(lines, Segment::Copy { line, len, offset }),
        parse_segments(lines, tail) == Ok::<Seq<Segment>, CodecError>(t),
    ensures
        parse_segments(lines, segment_bytes(Segment::Copy { line, len, offset }) + tail) == Ok::<
            Seq<Segment>,
            CodecError,
        >(seq![Segment::Copy { line, len, offset }] + t),
{
    let s = segment_bytes(Segment::Copy { line, len, offset }) + tail;
    let e1 = varint_encoding(line + 1);
    let e2 = varint_encoding(len);
    let e3 = varint_encoding(offset);
    lemma_encoding_len(line + 1);
    lemma_encoding_len(len);
    lemma_encoding_len(offset);
    assert(s =~= e1 + (e2 + (e3 + tail)));
    lemma_varint_round_trip((line + 1) as u64, e2 + (e3 + tail));
    let s1 = s.skip(e1.len() as int);
    assert(s1 =~= e2 + (e3 + tail));
    lemma_varint_round_trip(len as u64, e3 + tail);
    let s2 = s1.skip(e2.len() as int);
    assert(s2 =~= e3 + tail);
    lemma_varint_round_trip(offset as u64, tail);
    assert(s2.skip(e3.len() as int) =~= tail);
    let total = e1.len() + e2.len() + e3.len();
    assert(s.skip(total as int) =~= tail);
    assert(parse_block(lines, s) == Ok::<(Segment, int), CodecError>(
        (Segment::Copy { line, len, offset }, total as int),
    ));
}

proof fn lemma_parse_literal(lines: Seq<Seq<u8>>, bytes: Seq<u8>, tail: Seq<u8>, t: Seq<Segment>)
    requires
        bytes.len() <= u64::MAX,
        parse_segments(lines, tail) == Ok::<Seq<Segment>, CodecError>(t),
    ensures
        parse_segments(lines, segment_bytes(Segment::Literal { bytes }) + tail) == Ok::<
            Seq<Segment>,
            CodecError,
        >(seq![Segment::Literal { bytes }] + t),
{
    let s = segment_bytes(Segment::Literal { bytes }) + tail;
    let e1 = varint_encoding(0);
    let e2 = varint_encoding(bytes.len());
    lemma_encoding_len(0);
    lemma_encoding_len(bytes.len());
    assert(s =~= e1 + (e2 + (bytes + tail)));
    lemma_varint_round_trip(0, e2 + (bytes + tail));
    let s1 = s.skip(e1.len() as int);
    assert(s1 =~= e2 + (bytes + tail));
    lemma_varint_round_trip(bytes.len() as u64, bytes + tail);
    let s2 = s1.skip(e2.len() as int);
    assert(s2 =~= bytes + tail);
    assert(s2.take(bytes.len() as int) =~= bytes);
    assert(s2.skip(bytes.len() as int) =~= tail);
    let total = e1.len() + e2.len() + bytes.len();
    assert(s.skip(total as int) =~= tail);
    assert(parse_block(lines, s) == Ok::<(Segment, int), CodecError>(
        (Segment::Literal { bytes }, total as int),
    ));
}

/// `a + b`, saturating at the largest `usize`.
pub open spec fn saturating_add(a: usize, b: nat) -> usize {
    if a + b > usize::MAX {
        usize::MAX
    } else {
        (a + b) as usize
    }
}

/// Adds to each line's hit counter the length of every copy from it.
pub open spec fn bump_segments(hits: Seq<usize>, ss: Seq<Segment>) -> Seq<usize>
    decreases ss.len(),
{
    if ss.len() == 0 {
        hits
    } else {
        let h1 = match ss[0] {
            Segment::Copy { line, len, offset } => if line < hits.len() {
                hits.update(line as int, saturating_add(hits[line as int], len))
            } else {
                hits
            },
            Segment::Literal { .. } => hits,
        };
        bump_segments(h1, ss.drop_first())
    }
}

/// Counting the hits of a single block.
pub proof fn lemma_bump_single(hits: Seq<usize>, s: Segment)
    ensures
        bump_segments(hits, seq![s]) == match s {
            Segment::Copy { line, len, offset } => if line < hits.len() {
                hits.update(line as int, saturating_add(hits[line as int], len))
            } else {
                hits
            },
            Segment::Literal { .. } => hits,
        },
        bump_segments(hits, Seq::<Segment>::empty()) == hits,
{
    let one = seq![s];
    assert(one.drop_first().len() == 0);
    assert(one[0] == s);
    let h1 = match s {
        Segment::Copy { line, len, offset } => if line < hits.len() {
            hits.update(line as int, saturating_add(hits[line as int], len))
        } else {
            hits
        },
        Segment::Literal { .. } => hits,
    };
    assert(bump_segments(h1, one.drop_first()) == h1);
    assert(bump_segments(hits, one) == bump_segments(h1, one.drop_first()));
}

/// Counting hits block by block, in two parts.
pub proof fn lemma_bump_append(hits: Seq<usize>, a: Seq<Segment>, b: Seq<Segment>)
    ensures
        bump_segments(hits, a + b) == bump_segments(bump_segments(hits, a), b),
    decreases a.len(),
{
    if a.len() == 0 {
        assert(a + b =~= b);
    } else {
        assert((a + b).drop_first() =~= a.drop_first() + b);
        assert((a + b)[0] == a[0]);
        let h1 = match a[0] {
            Segment::Copy { line, len, offset } => if line < hits.len() {
                hits.update(line as int, saturating_add(hits[line as int], len))
            } else {
                hits
            },
            Segment::Literal { .. } => hits,
        };
        lemma_bump_append(h1, a.drop_first(), b);
    }
}

/// Index of the least hit counter among the first `n`, the lowest index
/// among equals.
pub open spec fn least_useful_upto(hits: Seq<usize>, n: nat) -> nat
    decreases n,
{
    if n <= 1 {
        0
    } else {
        let k = least_useful_upto(hits, (n - 1) as nat);
        if hits[n - 1] < hits[k as int] {
            (n - 1) as nat
        } else {
            k
        }
    }
}

/// Adds `rec` to the history: a new line while there is room, else in place
/// of the least useful line.
pub open spec fn history_insert(h: History, rec: Seq<u8>) -> History {
    if h.lines.len() < MAX_LINES {
        History { lines: h.lines.push(rec), hits: h.hits.push(0) }
    } else {
        let k = least_useful_upto(h.hits, h.lines.len()) as int;
        History { lines: h.lines.update(k, rec), hits: h.hits.update(k, 0) }
    }
}

/// The compression ratio `compressed / plain` is above `num / den`.
pub open spec fn ratio_above(compressed: nat, plain: nat, num: nat, den: nat) -> bool {
    compressed * den > num * plain
}

/// The blocks of `needle` as they go on the wire.
pub open spec fn encode_segments(h: History, needle: Seq<u8>) -> Seq<Segment> {
    segments_of(needle, encode_blocks(h.lines, needle))
}

/// What the encoder writes for `needle`.
pub open spec fn encode_output(h: History, needle: Seq<u8>) -> Seq<u8> {
    segments_bytes(encode_segments(h, needle))
}

/// The history after encoding `needle`.
pub open spec fn history_after_encode(h: History, needle: Seq<u8>, num: nat, den: nat) -> History {
    let ss = encode_segments(h, needle);
    let h1 = History { lines: h.lines, hits: bump_segments(h.hits, ss) };
    if ratio_above(segments_bytes(ss).len(), needle.len(), num, den) {
        history_insert(h1, needle)
    } else {
        h1
    }
}

/// What decoding `input` gives: the record and the history after it.
pub open spec fn decode_result(h: History, input: Seq<u8>, num: nat, den: nat) -> Result<
    (Seq<u8>, History),
    CodecError,
> {
    match parse_segments(h.lines, input) {
        Err(e) => Err(e),
        Ok(ss) => {
            let out = segments_output(h.lines, ss);
            let h1 = History { lines: h.lines, hits: bump_segments(h.hits, ss) };
            if ratio_above(input.len(), out.len(), num, den) {
                Ok((out, history_insert(h1, out)))
            } else {
                Ok((out, h1))
            }
        }
    }
}

} // verus!

verus! {

/// Decoding what the encoder wrote, against the same history, gives back
/// the record, and leaves the decoder with the history the encoder ends
/// with: the same lines under the same ids, with the same hit counters.
pub proof fn lemma_round_trip(h: History, needle: Seq<u8>, num: nat, den: nat)
    requires
        history_wf(h),
        needle.len() <= usize::MAX,
    ensures
        decode_result(h, encode_output(h, needle), num, den) == Ok::<
            (Seq<u8>, History),
            CodecError,
        >((needle, history_after_encode(h, needle, num, den))),
{
    let runs = plan_from(h.lines, needle, 0, 0);
    lemma_plan_ok(h.lines, needle, 0, 0);
    lemma_fill(h.lines, needle, runs, 0);
    lemma_parse_bytes(h.lines, encode_segments(h, needle));
    assert(needle.subrange(0, needle.len() as int) =~= needle);
}

/// The frames an encoder writes for `recs`, one per record, and its
/// history after them.
pub open spec fn encode_stream(h: History, recs: Seq<Seq<u8>>, num: nat, den: nat) -> (
    Seq<Seq<u8>>,
    History,
)
    decreases recs.len(),
{
    if recs.len() == 0 {
        (seq![], h)
    } else {
        let out = encode_output(h, recs[0]);
        let (rest, last) = encode_stream(
            history_after_encode(h, recs[0], num, den),
            recs.drop_first(),
            num,
            den,
        );
        (seq![out] + rest, last)
    }
}

/// The records a decoder reads from `frames`, and its history after them,
/// or the first error.
pub open spec fn decode_stream(h: History, frames: Seq<Seq<u8>>, num: nat, den: nat) -> Result<
    (Seq<Seq<u8>>, History),
    CodecError,
>
    decreases frames.len(),
{
    if frames.len() == 0 {
        Ok((seq![], h))
    } else {
        match decode_result(h, frames[0], num, den) {
            Err(e) => Err(e),
            Ok((rec, h1)) => match decode_stream(h1, frames.drop_first(), num, den) {
                Err(e) => Err(e),
                Ok((rest, last)) => Ok((seq![rec] + rest, last)),
            },
        }
    }
}

/// A decoder that starts from the encoder's history reads back every record
/// in order, and ends with the encoder's history.
pub proof fn lemma_stream_round_trip(h: History, recs: Seq<Seq<u8>>, num: nat, den: nat)
    requires
        history_wf(h),
        forall|i: int| 0 <= i < recs.len() ==> #[trigger] recs[i].len() <= usize::MAX,
    ensures
        decode_stream(h, encode_stream(h, recs, num, den).0, num, den) == Ok::<
            (Seq<Seq<u8>>, History),
            CodecError,
        >((recs, encode_stream(h, recs, num, den).1)),
    decreases recs.len(),
{
    if recs.len() > 0 {
        let frames = encode_stream(h, recs, num, den).0;
        let h1 = history_after_encode(h, recs[0], num, den);
        assert(recs[0].len() <= usize::MAX);
        lemma_round_trip(h, recs[0], num, den);
        lemma_history_bounded(h, recs[0], num, den);
        let rest = recs.drop_first();
        assert forall|i: int| 0 <= i < rest.len() implies #[trigger] rest[i].len() <= usize::MAX by {
            assert(rest[i] == recs[i + 1]);
        }
        lemma_stream_round_trip(h1, rest, num, den);
        assert(frames[0] == encode_output(h, recs[0]));
        assert(frames.drop_first() =~= encode_stream(h1, rest, num, den).0);
        assert(seq![recs[0]] + rest =~= recs);
    } else {
        assert(recs =~= Seq::<Seq<u8>>::empty());
    }
}

/// Encoding keeps the history within its bounds: at most `MAX_LINES`
/// lines, one hit counter each.
pub proof fn lemma_history_bounded(h: History, needle: Seq<u8>, num: nat, den: nat)
    requires
        history_wf(h),
    ensures
        history_wf(history_after_encode(h, needle, num, den)),
{
    let ss = encode_segments(h, needle);
    lemma_bump_len(h.hits, ss);
    let h1 = History { lines: h.lines, hits: bump_segments(h.hits, ss) };
    lemma_insert_bounded(h1, needle);
}

/// Decoding keeps the history within its bounds.
pub proof fn lemma_decode_bounded(h: History, input: Seq<u8>, num: nat, den: nat)
    requires
        history_wf(h),
    ensures
        match decode_result(h, input, num, den) {
            Ok((rec, h2)) => history_wf(h2),
            Err(e) => true,
        },
{
    if let Ok(ss) = parse_segments(h.lines, input) {
        lemma_bump_len(h.hits, ss);
        let h1 = History { lines: h.lines, hits: bump_segments(h.hits, ss) };
        lemma_insert_bounded(h1, segments_output(h.lines, ss));
    }
}

proof fn lemma_insert_bounded(h: History, rec: Seq<u8>)
    requires
        history_wf(h),
    ensures
        history_wf(history_insert(h, rec)),
{
    if h.lines.len() >= MAX_LINES {
        lemma_least_useful_in_range(h.hits, h.lines.len());
    }
}

proof fn lemma_least_useful_in_range(hits: Seq<usize>, n: nat)
    requires
        n >= 1,
    ensures
        least_useful_upto(hits, n) < n,
    decreases n,
{
    if n > 1 {
        lemma_least_useful_in_range(hits, (n - 1) as nat);
    }
}

proof fn lemma_bump_len(hits: Seq<usize>, ss: Seq<Segment>)
    ensures
        bump_segments(hits, ss).len() == hits.len(),
    decreases ss.len(),
{
    if ss.len() > 0 {
        let h1 = match ss[0] {
            Segment::Copy { line, len, offset } => if line < hits.len() {
                hits.update(line as int, saturating_add(hits[line as int], len))
            } else {
                hits
            },
            Segment::Literal { .. } => hits,
        };
        lemma_bump_len(h1, ss.drop_first());
    }
}

/// The blocks the encoder emits cover the record exactly, in order and
/// without overlap; each copy lies inside the line it names and equals the
/// record's bytes it stands for.
pub proof fn lemma_blocks_well_formed(h: History, needle: Seq<u8>)
    requires
        history_wf(h),
        needle.len() <= usize::MAX,
    ensures
        runs_ok(h.lines, needle, plan_from(h.lines, needle, 0, 0), 0),
        segments_ok(h.lines, encode_segments(h, needle)),
        segments_output(h.lines, encode_segments(h, needle)) == needle,
{
    lemma_plan_ok(h.lines, needle, 0, 0);
    lemma_fill(h.lines, needle, plan_from(h.lines, needle, 0, 0), 0);
    assert(needle.subrange(0, needle.len() as int) =~= needle);
}

/// Against an empty history a non-empty record becomes one literal block.
pub proof fn lemma_cold_start(needle: Seq<u8>)
    requires
        0 < needle.len() <= usize::MAX,
    ensures
        encode_blocks(Seq::<Seq<u8>>::empty(), needle) == seq![original(0, needle.len() as int)],
{
    lemma_plan_empty(needle, 0, 0);
    assert(plan_from(Seq::<Seq<u8>>::empty(), needle, 0, 0) =~= Seq::<Block>::empty());
}

proof fn lemma_plan_empty(needle: Seq<u8>, ci: nat, last_end: nat)
    ensures
        plan_from(Seq::<Seq<u8>>::empty(), needle, ci, last_end).len() == 0,
    decreases (if ci >= needle.len() / 4 { 0 } else { needle.len() / 4 - ci }),
{
    let lines = Seq::<Seq<u8>>::empty();
    if ci < needle.len() / 4 {
        assert(!has_best(lines, needle, ci as int, last_end as int));
        lemma_plan_empty(needle, ci + 1, last_end);
    }
}

/// Two encoders that hold the same history and threshold write the same
/// bytes for the same records, and end with the same history.
pub proof fn lemma_encoders_agree(
    h1: History,
    h2: History,
    recs: Seq<Seq<u8>>,
    num: nat,
    den: nat,
)
    requires
        h1 == h2,
    ensures
        encode_stream(h1, recs, num, den) == encode_stream(h2, recs, num, den),
{
}

} // verus!
