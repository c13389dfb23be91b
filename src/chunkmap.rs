use vstd::prelude::*;

pub use crate::index::slice_to_u32;
pub use crate::store::Match;

use fnv::FnvHashMap;
use slab::Slab;

use crate::model::{
    back_len, bump_segments, chunk_at, common_prefix, common_suffix, decode_result, encode_output,
    encode_segments, fill, fwd_len, has_best, history_after_encode, history_insert, is_best,
    is_site, least_useful_upto, lemma_bump_append, lemma_bump_single, lemma_common_prefix,
    lemma_common_suffix, lemma_plan_ok, lemma_segments_bytes_append, lemma_segments_of_append,
    lemma_single, min_len, original, parse_block, parse_segments, plan_from, preferred,
    ratio_above, runs_ok, saturating_add, segment_bytes, segment_of, segments_bytes, segments_of,
    segments_output, suffix_scan, Block, BlockType, History, MAX_LINES, Segment,
};
use crate::cache::CacheEntry;
use crate::index::{
    chunk_key, index_add, index_remove, index_wf, is_window_key, lemma_chunk_key_injective, site_key,
    valid_site,
};
use crate::store::{
    sites_get, sites_new, slab_entries, slab_get, slab_get_mut,
    slab_insert, slab_new, slab_slots,
};
use crate::varint::{append_uvarint, lemma_decode_within, read_uvarint};
use crate::{CodecError, Compressor};

verus! {

/// Length of the longest common prefix of `a` and `b`.
pub fn differs_at(a: &[u8], b: &[u8]) -> (r: usize)
    ensures
        r == common_prefix(a@, b@),
{
    let max = if a.len() < b.len() {
        a.len()
    } else {
        b.len()
    };
    let mut i: usize = 0;
    proof {
        assert(a@.skip(0) =~= a@);
        assert(b@.skip(0) =~= b@);
    }
    while i < max && a[i] == b[i]
        invariant
            max == min_len(a@, b@),
            i <= max,
            common_prefix(a@, b@) == i + common_prefix(a@.skip(i as int), b@.skip(i as int)),
        decreases max - i,
    {
        proof {
            let (sa, sb) = (a@.skip(i as int), b@.skip(i as int));
            assert(sa.drop_first() =~= a@.skip(i + 1));
            assert(sb.drop_first() =~= b@.skip(i + 1));
        }
        i = i + 1;
    }
    proof {
        let (sa, sb) = (a@.skip(i as int), b@.skip(i as int));
        if i < max {
            assert(sa[0] != sb[0]);
        }
    }
    i
}

/// Number of equal trailing bytes of `a` and `b`, at most one less than the
/// shorter length.
pub fn differs_back(a: &[u8], b: &[u8]) -> (r: usize)
    ensures
        r == common_suffix(a@, b@),
{
    let al = a.len();
    let bl = b.len();
    let max = if al < bl {
        al
    } else {
        bl
    };
    let mut i: usize = 1;
    while i < max && a[al - i] == b[bl - i]
        invariant
            max == min_len(a@, b@),
            al == a@.len(),
            bl == b@.len(),
            1 <= i,
            i <= max || max == 0,
            common_suffix(a@, b@) == suffix_scan(a@, b@, i as nat),
        decreases max - i,
    {
        i = i + 1;
    }
    i - 1
}

/// Appends `b` to `out`.
pub(crate) fn append_slice(out: &mut Vec<u8>, b: &[u8])
    ensures
        final(out)@ == old(out)@ + b@,
{
    let mut i: usize = 0;
    while i < b.len()
        invariant
            i <= b@.len(),
            out@ == old(out)@ + b@.take(i as int),
        decreases b@.len() - i,
    {
        out.push(b[i]);
        proof {
            assert(b@.take(i + 1) =~= b@.take(i as int).push(b@[i as int]));
        }
        i = i + 1;
    }
    proof {
        assert(b@.take(i as int) =~= b@);
    }
}

/// Appends the wire form of the literal block `[off, off + len)` of `needle`.
pub(crate) fn emit_literal(out: &mut Vec<u8>, needle: &[u8], off: usize, len: usize)
    requires
        off + len <= needle@.len(),
        needle@.len() <= usize::MAX,
    ensures
        final(out)@ == old(out)@ + segment_bytes(segment_of(needle@, original(off as int, len as int))),
{
    append_uvarint(out, 0);
    append_uvarint(out, len as u64);
    let bytes = &needle[off..off + len];
    append_slice(out, bytes);
    proof {
        let s = segment_of(needle@, original(off as int, len as int));
        assert(bytes@ == needle@.subrange(off as int, off + len));
        assert(final(out)@ =~= old(out)@ + segment_bytes(s));
    }
}

/// Appends the wire form of a copy of `len` bytes from `offset` of line `line`.
fn emit_copy(out: &mut Vec<u8>, line: usize, len: usize, offset: usize)
    requires
        line < MAX_LINES,
    ensures
        final(out)@ == old(out)@ + segment_bytes(
            Segment::Copy { line: line as nat, len: len as nat, offset: offset as nat },
        ),
{
    append_uvarint(out, (line + 1) as u64);
    append_uvarint(out, len as u64);
    append_uvarint(out, offset as u64);
    proof {
        let s = Segment::Copy { line: line as nat, len: len as nat, offset: offset as nat };
        assert(final(out)@ =~= old(out)@ + segment_bytes(s));
    }
}

/// A block read from the wire: a copy from history, or `len` literal bytes
/// of the input from `start` on.
#[derive(Clone, Copy)]
enum Piece {
    Copy { line: usize, len: usize, offset: usize },
    Literal { start: usize, len: usize },
}

spec fn piece_segment(input: Seq<u8>, p: Piece) -> Segment {
    match p {
        Piece::Copy { line, len, offset } => Segment::Copy {
            line: line as nat,
            len: len as nat,
            offset: offset as nat,
        },
        Piece::Literal { start, len } => Segment::Literal {
            bytes: input.subrange(start as int, start + len),
        },
    }
}

/// `p` stands for bytes that `lines` and `input` hold.
spec fn piece_ok(lines: Seq<Seq<u8>>, input: Seq<u8>, p: Piece) -> bool {
    match p {
        Piece::Copy { line, len, offset } => {
            let l = line as int;
            line < lines.len() && offset + len <= lines[l].len()
        },
        Piece::Literal { start, len } => start + len <= input.len(),
    }
}

spec fn piece_segments(input: Seq<u8>, ps: Seq<Piece>) -> Seq<Segment> {
    Seq::new(ps.len(), |i: int| piece_segment(input, ps[i]))
}

/// `done` followed by what `r` holds, or the error of `r`.
spec fn prepend(done: Seq<Segment>, r: Result<Seq<Segment>, CodecError>) -> Result<
    Seq<Segment>,
    CodecError,
> {
    match r {
        Ok(t) => Ok(done + t),
        Err(e) => Err(e),
    }
}

/// The delta codec: a history of recent records, indexed by their four-byte
/// chunks, against which each new record is encoded.
pub struct ChunkMap {
    map: FnvHashMap<u32, Vec<Match>>,
    entries: Slab<CacheEntry>,
    count: usize,
    threshold_num: u64,
    threshold_den: u64,
}

impl ChunkMap {
    /// The history this codec holds.
    pub closed spec fn history(&self) -> History {
        History {
            lines: Seq::new(
                slab_slots(self.entries),
                |i: int| slab_entries(self.entries)[i as usize].0,
            ),
            hits: Seq::new(
                slab_slots(self.entries),
                |i: int| slab_entries(self.entries)[i as usize].1,
            ),
        }
    }

    /// A record is added to the history when its compression ratio is above
    /// `threshold_num() / threshold_den()`.
    pub closed spec fn threshold_num(&self) -> nat {
        self.threshold_num as nat
    }

    /// See `threshold_num`.
    pub closed spec fn threshold_den(&self) -> nat {
        self.threshold_den as nat
    }

    /// The history has at most `MAX_LINES` lines under the ids `0..count`,
    /// and the chunk index lists exactly their four-byte windows.
    pub closed spec fn wf(&self) -> bool {
        let e = slab_entries(self.entries);
        &&& e.dom().finite()
        &&& e.len() == slab_slots(self.entries)
        &&& slab_slots(self.entries) == self.count
        &&& self.count <= MAX_LINES
        &&& forall|k: usize| k < self.count ==> #[trigger] e.contains_key(k)
        &&& index_wf(self.map@, self.history().lines)
        &&& self.threshold_den > 0
    }

    /// The sites the chunk index lists under key `k`.
    pub closed spec fn filed(&self, k: u32) -> Seq<Match> {
        if self.map@.contains_key(k) {
            self.map@[k]@
        } else {
            Seq::empty()
        }
    }

    /// The chunk index lists under each key every four-byte window of every
    /// history line with that key, each once, and nothing else: a line of
    /// `n >= 4` bytes has exactly `n - 3` sites.
    pub proof fn lemma_index_exact(&self, k: u32, m: Match)
        requires
            self.wf(),
        ensures
            self.filed(k).contains(m) <==> valid_site(self.history().lines, m) && site_key(
                self.history().lines,
                m,
            ) == k,
            self.filed(k).no_duplicates(),
    {
        let lines = self.history().lines;
        if valid_site(lines, m) && site_key(lines, m) == k {
            assert(self.map@.contains_key(k));
        }
        if !self.map@.contains_key(k) {
            assert(self.filed(k) =~= Seq::<Match>::empty());
        }
    }

    /// The number of lines in the history.
    pub fn len(&self) -> (r: usize)
        requires
            self.wf(),
        ensures
            r == self.history().lines.len(),
            r <= MAX_LINES,
    {
        self.count
    }

    /// The bytes of history line `line`, if there is one.
    pub fn line(&self, line: usize) -> (r: Option<&[u8]>)
        requires
            self.wf(),
        ensures
            match r {
                Some(b) => line < self.history().lines.len() && b@ == self.history().lines[line as int],
                None => line >= self.history().lines.len(),
            },
    {
        if line < self.count {
            assert(slab_entries(self.entries).contains_key(line));
            Some(slab_get(&self.entries, line).data.as_slice())
        } else {
            None
        }
    }

    /// The hit counter of history line `line`, if there is one.
    pub fn hits(&self, line: usize) -> (r: Option<usize>)
        requires
            self.wf(),
        ensures
            match r {
                Some(h) => line < self.history().hits.len() && h == self.history().hits[line as int],
                None => line >= self.history().hits.len(),
            },
    {
        if line < self.count {
            assert(slab_entries(self.entries).contains_key(line));
            Some(slab_get(&self.entries, line).hits)
        } else {
            None
        }
    }

    /// A codec with an empty history that adds a record when its compression
    /// ratio is above `threshold_num / threshold_den`.
    pub fn new(threshold_num: u64, threshold_den: u64) -> (r: Self)
        requires
            threshold_den > 0,
        ensures
            r.wf(),
            r.history().lines.len() == 0,
            r.history().hits.len() == 0,
            r.threshold_num() == threshold_num,
            r.threshold_den() == threshold_den,
    {
        ChunkMap {
            map: sites_new(),
            entries: slab_new(MAX_LINES),
            count: 0,
            threshold_num,
            threshold_den,
        }
    }

    /// The line with the fewest hits, the lowest among equals.
    fn least_useful(&self) -> (k: usize)
        requires
            self.wf(),
            self.count >= 1,
        ensures
            k == least_useful_upto(self.history().hits, self.count as nat),
            k < self.count,
    {
        let mut k: usize = 0;
        let mut i: usize = 1;
        let mut least = slab_get(&self.entries, 0).hits;
        while i < self.count
            invariant
                self.wf(),
                1 <= i <= self.count,
                k < i,
                k == least_useful_upto(self.history().hits, i as nat),
                least == self.history().hits[k as int],
            decreases self.count - i,
        {
            let h = slab_get(&self.entries, i).hits;
            if h < least {
                k = i;
                least = h;
            }
            i = i + 1;
        }
        k
    }

    /// How far the match at site `m` of chunk `ci` extends backwards (not
    /// past `last_end`) and forwards.
    fn extent(&self, needle: &[u8], ci: usize, last_end: usize, m: Match) -> (r: (usize, usize))
        requires
            self.wf(),
            is_site(self.history().lines, needle@, ci as int, m),
            last_end <= 4 * ci,
            needle@.len() <= usize::MAX,
        ensures
            r.0 == back_len(self.history().lines, needle@, ci as int, last_end as int, m),
            r.1 == fwd_len(self.history().lines, needle@, ci as int, m),
            r.0 <= 4 * ci - last_end,
            r.0 <= m.offset,
            4 * ci + 4 + r.1 <= needle@.len(),
    {
        let ghost lines = self.history().lines;
        assert(slab_entries(self.entries).contains_key(m.line));
        let line = slab_get(&self.entries, m.line).data.as_slice();
        assert(line@ == lines[m.line as int]);
        let a = &needle[last_end..4 * ci];
        let b = &line[0..m.offset];
        let back = differs_back(a, b);
        let c = &needle[4 * ci + 4..needle.len()];
        let ll = line.len();
        let d = &line[m.offset + 4..ll];
        let fwd = differs_at(c, d);
        proof {
            assert(a@ == needle@.subrange(last_end as int, 4 * ci));
            assert(b@ =~= lines[m.line as int].take(m.offset as int));
            assert(c@ =~= needle@.skip(4 * ci + 4));
            assert(d@ =~= lines[m.line as int].skip(m.offset + 4));
            lemma_common_suffix(a@, b@);
            lemma_common_prefix(c@, d@);
        }
        (back, fwd)
    }

    /// The best site among `sites`, which are all the sites of chunk `ci`,
    /// with how far its match extends backwards and forwards.
    fn best_site(&self, needle: &[u8], ci: usize, last_end: usize, sites: &Vec<Match>) -> (r: (
        Match,
        usize,
        usize,
    ))
        requires
            self.wf(),
            sites@.len() > 0,
            4 * ci + 4 <= needle@.len(),
            needle@.len() <= usize::MAX,
            last_end <= 4 * ci,
            forall|m: Match|
                #[trigger] sites@.contains(m) <==> is_site(
                    self.history().lines,
                    needle@,
                    ci as int,
                    m,
                ),
        ensures
            is_best(self.history().lines, needle@, ci as int, last_end as int, r.0),
            r.1 == back_len(self.history().lines, needle@, ci as int, last_end as int, r.0),
            r.2 == fwd_len(self.history().lines, needle@, ci as int, r.0),
            r.1 <= 4 * ci - last_end,
            r.1 <= r.0.offset,
            4 * ci + 4 + r.2 <= needle@.len(),
    {
        let ghost lines = self.history().lines;
        let mut best = sites[0];
        assert(sites@.contains(best));
        let (b0, f0) = self.extent(needle, ci, last_end, best);
        let mut best_back = b0;
        let mut best_fwd = f0;
        let mut j: usize = 1;
        while j < sites.len()
            invariant
                self.wf(),
                lines == self.history().lines,
                1 <= j <= sites@.len(),
                4 * ci + 4 <= needle@.len(),
                needle@.len() <= usize::MAX,
                last_end <= 4 * ci,
                forall|m: Match|
                    #[trigger] sites@.contains(m) <==> is_site(lines, needle@, ci as int, m),
                is_site(lines, needle@, ci as int, best),
                best_back == back_len(lines, needle@, ci as int, last_end as int, best),
                best_fwd == fwd_len(lines, needle@, ci as int, best),
                best_back <= 4 * ci - last_end,
                best_back <= best.offset,
                4 * ci + 4 + best_fwd <= needle@.len(),
                forall|i: int|
                    0 <= i < j ==> preferred(
                        lines,
                        needle@,
                        ci as int,
                        last_end as int,
                        best,
                        #[trigger] sites@[i],
                    ),
            decreases sites@.len() - j,
        {
            let m = sites[j];
            assert(sites@.contains(m));
            let (b, f) = self.extent(needle, ci, last_end, m);
            if b + f > best_back + best_fwd || (b + f == best_back + best_fwd && (m.line < best.line
                || (m.line == best.line && m.offset < best.offset))) {
                best = m;
                best_back = b;
                best_fwd = f;
            }
            j = j + 1;
        }
        proof {
            assert forall|m2: Match| #[trigger]
                is_site(lines, needle@, ci as int, m2) implies preferred(
                lines,
                needle@,
                ci as int,
                last_end as int,
                best,
                m2,
            ) by {
                assert(sites@.contains(m2));
                let i = choose|i: int| 0 <= i < sites@.len() && sites@[i] == m2;
                assert(preferred(lines, needle@, ci as int, last_end as int, best, sites@[i]));
            }
        }
        (best, best_back, best_fwd)
    }

    /// The delta blocks of the greedy pass over `needle`.
    fn plan(&self, needle: &[u8]) -> (runs: Vec<Block>)
        requires
            self.wf(),
        ensures
            runs@ == plan_from(self.history().lines, needle@, 0, 0),
    {
        let ghost lines = self.history().lines;
        let nch = needle.len() / 4;
        let mut ci: usize = 0;
        let mut last_end: usize = 0;
        let mut runs: Vec<Block> = Vec::new();
        while ci < nch
            invariant
                self.wf(),
                lines == self.history().lines,
                nch == needle@.len() / 4,
                needle@.len() <= usize::MAX,
                last_end <= 4 * ci,
                4 * ci <= needle@.len() + 3,
                runs@ + plan_from(lines, needle@, ci as nat, last_end as nat) == plan_from(
                    lines,
                    needle@,
                    0,
                    0,
                ),
            decreases needle@.len() + 3 - 4 * ci,
        {
            let chunk = &needle[4 * ci..4 * ci + 4];
            let key = slice_to_u32(chunk);
            let ghost nchunk = chunk_at(needle@, 4 * ci);
            assert(chunk@ == nchunk);
            let found = sites_get(&self.map, key);
            let mut advanced = false;
            if let Some(v) = found {
                if v.len() > 0 {
                    proof {
                        assert forall|m: Match| #[trigger]
                            v@.contains(m) <==> is_site(lines, needle@, ci as int, m) by {
                            if v@.contains(m) {
                                assert(self.map@[key]@.contains(m));
                                lemma_chunk_key_injective(
                                    chunk_at(lines[m.line as int], m.offset as int),
                                    nchunk,
                                );
                            }
                            if is_site(lines, needle@, ci as int, m) {
                                assert(valid_site(lines, m));
                            }
                        }
                    }
                    let (m, back, fwd) = self.best_site(needle, ci, last_end, v);
                    proof {
                        let c = choose|c: Match| is_best(lines, needle@, ci as int, last_end as int, c);
                        assert(is_best(lines, needle@, ci as int, last_end as int, c));
                        assert(preferred(lines, needle@, ci as int, last_end as int, c, m));
                        assert(preferred(lines, needle@, ci as int, last_end as int, m, c));
                        assert(c == m);
                        assert(has_best(lines, needle@, ci as int, last_end as int));
                    }
                    runs.push(
                        Block {
                            block_type: BlockType::Delta { line: m.line, offset: m.offset - back },
                            needle_off: 4 * ci - back,
                            len: 4 + back + fwd,
                        },
                    );
                    last_end = 4 * ci + 4 + fwd;
                    ci = ci + 1 + (fwd + 3) / 4;
                    advanced = true;
                    proof {
                        assert(runs@ + plan_from(lines, needle@, ci as nat, last_end as nat) =~= plan_from(
                            lines,
                            needle@,
                            0,
                            0,
                        ));
                    }
                }
            }
            if !advanced {
                proof {
                    assert forall|m: Match| !is_best(lines, needle@, ci as int, last_end as int, m) by {
                        if is_site(lines, needle@, ci as int, m) {
                            assert(valid_site(lines, m));
                            assert(site_key(lines, m) == key);
                            assert(self.map@[key]@.contains(m));
                        }
                    }
                }
                ci = ci + 1;
                proof {
                    assert(runs@ + plan_from(lines, needle@, ci as nat, last_end as nat) =~= plan_from(
                        lines,
                        needle@,
                        0,
                        0,
                    ));
                }
            }
        }
        proof {
            assert(runs@ =~= plan_from(lines, needle@, 0, 0));
        }
        runs
    }

    /// Adds `by` to the hit counter of `line`, saturating.
    fn bump(&mut self, line: usize, by: usize)
        requires
            old(self).wf(),
            line < old(self).history().lines.len(),
        ensures
            final(self).wf(),
            final(self).history() == (History {
                lines: old(self).history().lines,
                hits: old(self).history().hits.update(
                    line as int,
                    saturating_add(old(self).history().hits[line as int], by as nat),
                ),
            }),
            final(self).threshold_num() == old(self).threshold_num(),
            final(self).threshold_den() == old(self).threshold_den(),
    {
        let ghost h = self.history();
        assert(slab_entries(self.entries).contains_key(line));
        let e = slab_get_mut(&mut self.entries, line);
        e.hits = e.hits.saturating_add(by);
        proof {
            assert(self.history().lines =~= h.lines);
            assert(self.history().hits =~= h.hits.update(
                line as int,
                saturating_add(h.hits[line as int], by as nat),
            ));
        }
    }

    /// Writes the blocks of `needle`, the delta blocks `runs` with the gaps
    /// between them filled by literal blocks, and adds each copy's length
    /// to the hits of the line it copies from.
    fn emit(&mut self, needle: &[u8], runs: &Vec<Block>, out: &mut Vec<u8>)
        requires
            old(self).wf(),
            runs_ok(old(self).history().lines, needle@, runs@, 0),
            needle@.len() <= usize::MAX,
        ensures
            final(self).wf(),
            final(out)@ == old(out)@ + segments_bytes(
                segments_of(needle@, fill(runs@, 0, needle@.len() as int)),
            ),
            final(self).history() == (History {
                lines: old(self).history().lines,
                hits: bump_segments(
                    old(self).history().hits,
                    segments_of(needle@, fill(runs@, 0, needle@.len() as int)),
                ),
            }),
            final(self).threshold_num() == old(self).threshold_num(),
            final(self).threshold_den() == old(self).threshold_den(),
    {
        let ghost lines = self.history().lines;
        let ghost n = needle@.len() as int;
        let ghost all = segments_of(needle@, fill(runs@, 0, n));
        let mut i: usize = 0;
        let mut pos: usize = 0;
        proof {
            assert(runs@.skip(0) =~= runs@);
        }
        while i < runs.len()
            invariant
                self.wf(),
                self.history().lines == lines,
                self.threshold_num() == old(self).threshold_num(),
                self.threshold_den() == old(self).threshold_den(),
                n == needle@.len(),
                n <= usize::MAX,
                i <= runs@.len(),
                runs_ok(lines, needle@, runs@.skip(i as int), pos as int),
                old(out)@ + segments_bytes(all) == out@ + segments_bytes(
                    segments_of(needle@, fill(runs@.skip(i as int), pos as int, n)),
                ),
                bump_segments(old(self).history().hits, all) == bump_segments(
                    self.history().hits,
                    segments_of(needle@, fill(runs@.skip(i as int), pos as int, n)),
                ),
            decreases runs@.len() - i,
        {
            let r = runs[i];
            let ghost rest = runs@.skip(i as int);
            assert(rest[0] == r);
            assert(rest.drop_first() =~= runs@.skip(i + 1));
            let ghost gap = if r.needle_off > pos {
                seq![original(pos as int, r.needle_off - pos)]
            } else {
                seq![]
            };
            let ghost tail = fill(runs@.skip(i + 1), r.needle_off + r.len, n);
            let ghost sg = segments_of(needle@, gap);
            let ghost sr = segments_of(needle@, seq![r]);
            let ghost st = segments_of(needle@, tail);
            let ghost h0 = self.history().hits;
            proof {
                assert(fill(rest, pos as int, n) == gap + seq![r] + tail);
                lemma_segments_of_append(needle@, gap + seq![r], tail);
                lemma_segments_of_append(needle@, gap, seq![r]);
                lemma_segments_bytes_append(sg + sr, st);
                lemma_segments_bytes_append(sg, sr);
                lemma_bump_append(self.history().hits, sg + sr, st);
                lemma_bump_append(self.history().hits, sg, sr);
                lemma_single(lines, needle@, r);
            }
            if r.needle_off > pos {
                emit_literal(out, needle, pos, r.needle_off - pos);
                proof {
                    lemma_single(lines, needle@, original(pos as int, r.needle_off - pos));
                }
            } else {
                proof {
                    assert(sg =~= Seq::<Segment>::empty());
                }
            }
            proof {
                if r.needle_off > pos {
                    lemma_bump_single(h0, segment_of(needle@, original(pos as int, r.needle_off - pos)));
                } else {
                    lemma_bump_single(h0, segment_of(needle@, r));
                }
                assert(bump_segments(h0, sg) == h0);
                lemma_bump_single(h0, segment_of(needle@, r));
            }
            if let BlockType::Delta { line, offset } = r.block_type {
                emit_copy(out, line, r.len, offset);
                self.bump(line, r.len);
                proof {
                    assert(sr.drop_first() =~= Seq::<Segment>::empty());
                    assert(bump_segments(h0, sr) == self.history().hits);
                }
            }
            pos = r.needle_off + r.len;
            i = i + 1;
        }
        if pos < needle.len() {
            emit_literal(out, needle, pos, needle.len() - pos);
            proof {
                let o = original(pos as int, n - pos);
                assert(runs@.skip(i as int) =~= Seq::<Block>::empty());
                lemma_single(lines, needle@, o);
                let so = seq![segment_of(needle@, o)];
                lemma_bump_single(self.history().hits, segment_of(needle@, o));
                assert(bump_segments(self.history().hits, so) == self.history().hits);
            }
        } else {
            proof {
                assert(runs@.skip(i as int) =~= Seq::<Block>::empty());
            }
        }
    }

    /// Encodes `needle` against the history, appends the blocks to `out`,
    /// counts the copies as hits, and adds `needle` to the history when its
    /// compression ratio is above the threshold.
    pub fn encode(&mut self, needle: &[u8], out: &mut Vec<u8>)
        requires
            old(self).wf(),
        ensures
            final(self).wf(),
            final(out)@ == old(out)@ + encode_output(old(self).history(), needle@),
            final(self).history() == history_after_encode(
                old(self).history(),
                needle@,
                old(self).threshold_num(),
                old(self).threshold_den(),
            ),
            final(self).threshold_num() == old(self).threshold_num(),
            final(self).threshold_den() == old(self).threshold_den(),
    {
        let n = needle.len();
        let ghost h = self.history();
        let runs = self.plan(needle);
        proof {
            lemma_plan_ok(h.lines, needle@, 0, 0);
        }
        let start = out.len();
        self.emit(needle, &runs, out);
        let clen = out.len() - start;
        proof {
            assert(clen == encode_output(h, needle@).len());
            assert(encode_segments(h, needle@) == segments_of(needle@, fill(runs@, 0, n as int)));
        }
        if self.admits(clen, n) {
            let mut rec: Vec<u8> = Vec::new();
            append_slice(&mut rec, needle);
            assert(rec@ =~= needle@);
            self.insert(rec);
        }
    }

    /// The compression ratio `compressed / plain` is above the threshold.
    fn admits(&self, compressed: usize, plain: usize) -> (r: bool)
        ensures
            r == ratio_above(
                compressed as nat,
                plain as nat,
                self.threshold_num(),
                self.threshold_den(),
            ),
    {
        let a = compressed as u128;
        let b = self.threshold_den as u128;
        let c = self.threshold_num as u128;
        let d = plain as u128;
        assert(a * b <= u64::MAX * u64::MAX) by (nonlinear_arith)
            requires
                a <= u64::MAX,
                b <= u64::MAX,
        ;
        assert(c * d <= u64::MAX * u64::MAX) by (nonlinear_arith)
            requires
                c <= u64::MAX,
                d <= u64::MAX,
        ;
        a * b > c * d
    }

    /// Reads the block of `input` at `pos`, checking it against the history.
    fn parse_one(&self, input: &[u8], pos: usize) -> (r: Result<(Piece, usize), CodecError>)
        requires
            self.wf(),
            pos < input@.len(),
        ensures
            match r {
                Ok((piece, next)) => pos < next <= input@.len() && piece_ok(
                    self.history().lines,
                    input@,
                    piece,
                ) && parse_block(
                    self.history().lines,
                    input@.skip(pos as int),
                ) == Ok::<(Segment, int), CodecError>((piece_segment(input@, piece), next - pos)),
                Err(e) => parse_block(self.history().lines, input@.skip(pos as int)) == Err::<
                    (Segment, int),
                    CodecError,
                >(e),
            },
    {
        let ghost lines = self.history().lines;
        let n = input.len();
        let ghost s = input@.skip(pos as int);
        let mut p = pos;
        let tag = read_uvarint(input, &mut p);
        proof {
            lemma_decode_within(s);
        }
        let tag = match tag {
            Ok(v) => v,
            Err(e) => {
                return Err(e);
            },
        };
        let ghost n1 = p - pos;
        let ghost s1 = s.skip(n1);
        proof {
            assert(input@.skip(p as int) =~= s1);
        }
        let p1 = p;
        let len = read_uvarint(input, &mut p);
        proof {
            lemma_decode_within(s1);
        }
        let ghost n2 = p - p1;
        let ghost s2 = s1.skip(n2);
        proof {
            assert(input@.skip(p as int) =~= s2);
        }
        if tag == 0 {
            let len = match len {
                Ok(v) => v,
                Err(e) => {
                    return Err(e);
                },
            };
            if len > (n - p) as u64 {
                return Err(CodecError::Malformed);
            }
            let len = len as usize;
            proof {
                assert(s2.take(len as int) =~= input@.subrange(p as int, p + len));
            }
            Ok((Piece::Literal { start: p, len }, p + len))
        } else {
            if tag > self.count as u64 {
                return Err(CodecError::DesyncState);
            }
            let line = (tag - 1) as usize;
            let len = match len {
                Ok(v) => v,
                Err(e) => {
                    return Err(e);
                },
            };
            let offset = read_uvarint(input, &mut p);
            proof {
                lemma_decode_within(s2);
            }
            let offset = match offset {
                Ok(v) => v,
                Err(e) => {
                    return Err(e);
                },
            };
            proof {
                assert(slab_entries(self.entries).contains_key(line));
            }
            let ll = slab_get(&self.entries, line).data.len();
            if offset > ll as u64 || len > ll as u64 - offset {
                return Err(CodecError::DesyncState);
            }
            Ok((Piece::Copy { line, len: len as usize, offset: offset as usize }, p))
        }
    }

    /// Reads the blocks of one record, checking each against the history.
    fn parse(&self, input: &[u8]) -> (r: Result<Vec<Piece>, CodecError>)
        requires
            self.wf(),
        ensures
            match r {
                Ok(ps) => parse_segments(self.history().lines, input@) == Ok::<
                    Seq<Segment>,
                    CodecError,
                >(piece_segments(input@, ps@)) && forall|i: int|
                    0 <= i < ps@.len() ==> piece_ok(self.history().lines, input@, #[trigger] ps@[i]),
                Err(e) => parse_segments(self.history().lines, input@) == Err::<
                    Seq<Segment>,
                    CodecError,
                >(e),
            },
    {
        let ghost lines = self.history().lines;
        let n = input.len();
        let mut ps: Vec<Piece> = Vec::new();
        let mut pos: usize = 0;
        proof {
            assert(input@.skip(0) =~= input@);
            match parse_segments(lines, input@) {
                Ok(t) => {
                    assert(piece_segments(input@, ps@) + t =~= t);
                },
                Err(e) => {},
            }
        }
        while pos < n
            invariant
                self.wf(),
                lines == self.history().lines,
                n == input@.len(),
                pos <= n,
                forall|i: int| 0 <= i < ps@.len() ==> piece_ok(lines, input@, #[trigger] ps@[i]),
                parse_segments(lines, input@) == prepend(
                    piece_segments(input@, ps@),
                    parse_segments(lines, input@.skip(pos as int)),
                ),
            decreases n - pos,
        {
            let (piece, next) = match self.parse_one(input, pos) {
                Ok(v) => v,
                Err(e) => {
                    return Err(e);
                },
            };
            let ghost pre = ps@;
            ps.push(piece);
            proof {
                let s = input@.skip(pos as int);
                assert(s.skip(next - pos) =~= input@.skip(next as int));
                assert(piece_segments(input@, ps@) =~= piece_segments(input@, pre) + seq![
                    piece_segment(input@, piece),
                ]);
                match parse_segments(lines, input@.skip(next as int)) {
                    Ok(t) => {
                        assert(piece_segments(input@, pre) + (seq![piece_segment(input@, piece)]
                            + t) =~= piece_segments(input@, ps@) + t);
                    },
                    Err(e) => {},
                }
            }
            pos = next;
        }
        proof {
            assert(input@.skip(pos as int) =~= Seq::<u8>::empty());
            assert(piece_segments(input@, ps@) + Seq::<Segment>::empty() =~= piece_segments(
                input@,
                ps@,
            ));
        }
        Ok(ps)
    }

    /// Appends the bytes the blocks `ps` stand for to `out`, and adds each
    /// copy's length to the hits of the line it copies from.
    fn apply(&mut self, input: &[u8], ps: &Vec<Piece>, out: &mut Vec<u8>)
        requires
            old(self).wf(),
            forall|i: int|
                0 <= i < ps@.len() ==> piece_ok(old(self).history().lines, input@, #[trigger] ps@[i]),
        ensures
            final(self).wf(),
            final(out)@ == old(out)@ + segments_output(
                old(self).history().lines,
                piece_segments(input@, ps@),
            ),
            final(self).history() == (History {
                lines: old(self).history().lines,
                hits: bump_segments(old(self).history().hits, piece_segments(input@, ps@)),
            }),
            final(self).threshold_num() == old(self).threshold_num(),
            final(self).threshold_den() == old(self).threshold_den(),
    {
        let ghost lines = self.history().lines;
        let ghost all = piece_segments(input@, ps@);
        let mut i: usize = 0;
        proof {
            assert(all.skip(0) =~= all);
        }
        while i < ps.len()
            invariant
                self.wf(),
                self.history().lines == lines,
                self.threshold_num() == old(self).threshold_num(),
                self.threshold_den() == old(self).threshold_den(),
                all == piece_segments(input@, ps@),
                i <= ps@.len(),
                forall|j: int| 0 <= j < ps@.len() ==> piece_ok(lines, input@, #[trigger] ps@[j]),
                old(out)@ + segments_output(lines, all) == out@ + segments_output(
                    lines,
                    all.skip(i as int),
                ),
                bump_segments(old(self).history().hits, all) == bump_segments(
                    self.history().hits,
                    all.skip(i as int),
                ),
            decreases ps@.len() - i,
        {
            let piece = ps[i];
            let ghost rest = all.skip(i as int);
            let ghost h0 = self.history().hits;
            proof {
                assert(piece_ok(lines, input@, ps@[i as int]));
                assert(rest[0] == piece_segment(input@, piece));
                assert(rest.drop_first() =~= all.skip(i + 1));
            }
            match piece {
                Piece::Copy { line, len, offset } => {
                    proof {
                        assert(slab_entries(self.entries).contains_key(line));
                    }
                    let data = slab_get(&self.entries, line).data.as_slice();
                    let dl = data.len();
                    append_slice(out, &data[offset..offset + len]);
                    self.bump(line, len);
                },
                Piece::Literal { start, len } => {
                    let il = input.len();
                    append_slice(out, &input[start..start + len]);
                },
            }
            i = i + 1;
        }
        proof {
            assert(all.skip(i as int) =~= Seq::<Segment>::empty());
        }
    }

    /// Decodes one record from `in_buf`, appends it to `out`, counts the
    /// copies as hits, and adds the record to the history when its
    /// compression ratio is above the threshold. On an error nothing
    /// changes.
    pub fn decode(&mut self, in_buf: &[u8], out: &mut Vec<u8>) -> (r: Result<(), CodecError>)
        requires
            old(self).wf(),
        ensures
            final(self).wf(),
            final(self).threshold_num() == old(self).threshold_num(),
            final(self).threshold_den() == old(self).threshold_den(),
            match decode_result(
                old(self).history(),
                in_buf@,
                old(self).threshold_num(),
                old(self).threshold_den(),
            ) {
                Ok((rec, h)) => r is Ok && final(out)@ == old(out)@ + rec && final(self).history()
                    == h,
                Err(e) => r == Err::<(), CodecError>(e) && final(out)@ == old(out)@
                    && final(self).history() == old(self).history(),
            },
    {
        let ps = match self.parse(in_buf) {
            Ok(ps) => ps,
            Err(e) => {
                return Err(e);
            },
        };
        let ghost h = self.history();
        let ghost ss = piece_segments(in_buf@, ps@);
        let start = out.len();
        self.apply(in_buf, &ps, out);
        let end = out.len();
        proof {
            assert(out@.subrange(start as int, end as int) =~= segments_output(h.lines, ss));
        }
        if self.admits(in_buf.len(), end - start) {
            let mut rec: Vec<u8> = Vec::new();
            append_slice(&mut rec, &out[start..end]);
            proof {
                assert(rec@ =~= out@.subrange(start as int, end as int));
            }
            self.insert(rec);
        }
        Ok(())
    }

    /// Adds `entry` to the history, in place of the least useful line when
    /// the history is full, and files its chunks in the index.
    fn insert(&mut self, entry: Vec<u8>)
        requires
            old(self).wf(),
        ensures
            final(self).wf(),
            final(self).history() == history_insert(old(self).history(), entry@),
            final(self).threshold_num() == old(self).threshold_num(),
            final(self).threshold_den() == old(self).threshold_den(),
    {
        let ghost h = self.history();
        let ghost e0 = slab_entries(self.entries);
        if self.count == MAX_LINES {
            let k = self.least_useful();
            let old_line = slab_get(&self.entries, k);
            index_remove(&mut self.map, k, &old_line.data);
            let ghost removed = self.map@;
            proof {
                let m0 = old(self).map@;
                assert forall|key: u32, m: Match|
                    removed.contains_key(key) && #[trigger] removed[key]@.contains(m) implies m.line
                    != k by {
                    assert(m0[key]@.contains(m));
                    if m.line == k {
                        assert(chunk_key(chunk_at(h.lines[k as int], m.offset as int)) == key);
                        assert(is_window_key(h.lines[k as int], key));
                    }
                }
            }
            index_add(&mut self.map, k, &entry);
            let ghost data = entry@;
            let e = slab_get_mut(&mut self.entries, k);
            e.hits = 0;
            e.data = entry;
            proof {
                let h2 = history_insert(h, data);
                assert(self.history().lines =~= h2.lines);
                assert(self.history().hits =~= h2.hits);
                let m0 = old(self).map@;
                let m2 = self.map@;
                let l = h.lines;
                let l2 = self.history().lines;
                assert(l2 == l.update(k as int, data));
                assert forall|key: u32, m: Match|
                    m2.contains_key(key) && #[trigger] m2[key]@.contains(m) implies valid_site(l2, m)
                        && site_key(l2, m) == key by {
                    if removed.contains_key(key) && removed[key]@.contains(m) {
                        assert(m0[key]@.contains(m));
                        if m.line == k {
                            assert(chunk_key(chunk_at(l[k as int], m.offset as int)) == key);
                            assert(is_window_key(l[k as int], key));
                        }
                    }
                }
                assert forall|m: Match| #[trigger] valid_site(l2, m) implies m2.contains_key(
                    site_key(l2, m),
                ) && m2[site_key(l2, m)]@.contains(m) by {
                    if m.line != k {
                        assert(valid_site(l, m));
                        let key = site_key(l, m);
                        assert(m0.contains_key(key) && m0[key]@.contains(m));
                        assert(removed.contains_key(key));
                        assert(removed[key]@.contains(m));
                    } else {
                        assert(chunk_at(l2[k as int], m.offset as int) == chunk_at(
                            data,
                            m.offset as int,
                        ));
                    }
                }
            }
        } else {
            proof {
                let m0 = self.map@;
                assert forall|key: u32, m: Match|
                    m0.contains_key(key) && #[trigger] m0[key]@.contains(m) implies m.line
                    != self.count by {
                    assert(valid_site(h.lines, m));
                }
            }
            index_add(&mut self.map, self.count, &entry);
            let ghost data = entry@;
            let k = slab_insert(&mut self.entries, CacheEntry { hits: 0, data: entry });
            self.count = self.count + 1;
            proof {
                let h2 = history_insert(h, data);
                assert(self.history().lines =~= h2.lines);
                assert(self.history().hits =~= h2.hits);
                assert forall|k2: usize| k2 < self.count implies #[trigger] slab_entries(
                    self.entries,
                ).contains_key(k2) by {
                    if k2 < k {
                        assert(e0.contains_key(k2));
                    }
                }
                let m0 = old(self).map@;
                let m2 = self.map@;
                let l = h.lines;
                let l2 = self.history().lines;
                let n = l.len();
                assert(l2 == l.push(data));
                assert forall|key: u32, m: Match|
                    m2.contains_key(key) && #[trigger] m2[key]@.contains(m) implies valid_site(l2, m)
                        && site_key(l2, m) == key by {
                    if m0.contains_key(key) && m0[key]@.contains(m) {
                        assert(valid_site(l, m));
                        assert(l2[m.line as int] == l[m.line as int]);
                    } else {
                        assert(l2[n as int] == data);
                    }
                }
                assert forall|m: Match| #[trigger] valid_site(l2, m) implies m2.contains_key(
                    site_key(l2, m),
                ) && m2[site_key(l2, m)]@.contains(m) by {
                    if m.line < n {
                        assert(valid_site(l, m));
                        assert(l2[m.line as int] == l[m.line as int]);
                        let key = site_key(l, m);
                        assert(m0.contains_key(key) && m0[key]@.contains(m));
                    } else {
                        assert(l2[m.line as int] == data);
                    }
                }
            }
        }
    }
}

impl Compressor for ChunkMap {
    closed spec fn valid(&self) -> bool {
        self.wf()
    }

    fn encode(&mut self, in_buf: &[u8], out_buf: &mut Vec<u8>)
        ensures
            final(out_buf)@ == old(out_buf)@ + encode_output(old(self).history(), in_buf@),
            final(self).history() == history_after_encode(
                old(self).history(),
                in_buf@,
                old(self).threshold_num(),
                old(self).threshold_den(),
            ),
    {
        ChunkMap::encode(self, in_buf, out_buf)
    }

    fn decode(&mut self, in_buf: &[u8], out_buf: &mut Vec<u8>) -> (r: Result<(), CodecError>)
        ensures
            match decode_result(
                old(self).history(),
                in_buf@,
                old(self).threshold_num(),
                old(self).threshold_den(),
            ) {
                Ok((rec, h)) => r is Ok && final(out_buf)@ == old(out_buf)@ + rec
                    && final(self).history() == h,
                Err(e) => r == Err::<(), CodecError>(e) && final(out_buf)@ == old(out_buf)@
                    && final(self).history() == old(self).history(),
            },
    {
        ChunkMap::decode(self, in_buf, out_buf)
    }
}

} // verus!
