use vstd::prelude::*;

use fnv::FnvHashMap;

use crate::model::chunk_at;
use crate::store::{sites_insert, sites_remove, Match};

verus! {

/// The index key of four bytes, read little-endian.
pub open spec fn chunk_key(c: Seq<u8>) -> u32 {
    (c[0] as u32) | ((c[1] as u32) << 8u32) | ((c[2] as u32) << 16u32) | ((c[3] as u32) << 24u32)
}

/// Four bytes as a little-endian `u32`.
pub fn slice_to_u32(s: &[u8]) -> (r: u32)
    requires
        s@.len() == 4,
    ensures
        r == chunk_key(s@),
{
    (s[0] as u32) | ((s[1] as u32) << 8u32) | ((s[2] as u32) << 16u32) | ((s[3] as u32) << 24u32)
}

/// Different chunks have different keys.
pub proof fn lemma_chunk_key_injective(a: Seq<u8>, b: Seq<u8>)
    requires
        a.len() == 4,
        b.len() == 4,
        chunk_key(a) == chunk_key(b),
    ensures
        a == b,
{
    let (a0, a1, a2, a3) = (a[0], a[1], a[2], a[3]);
    let (b0, b1, b2, b3) = (b[0], b[1], b[2], b[3]);
    assert(a0 == b0 && a1 == b1 && a2 == b2 && a3 == b3) by (bit_vector)
        requires
            (a0 as u32) | ((a1 as u32) << 8u32) | ((a2 as u32) << 16u32) | ((a3 as u32) << 24u32)
                == (b0 as u32) | ((b1 as u32) << 8u32) | ((b2 as u32) << 16u32) | ((b3 as u32)
                << 24u32),
    ;
    assert(a =~= b);
}

/// `m` names four bytes inside one of `lines`.
pub open spec fn valid_site(lines: Seq<Seq<u8>>, m: Match) -> bool {
    m.line < lines.len() && m.offset + 4 <= lines[m.line as int].len()
}

/// The key of the four bytes at site `m`.
pub open spec fn site_key(lines: Seq<Seq<u8>>, m: Match) -> u32 {
    chunk_key(chunk_at(lines[m.line as int], m.offset as int))
}

/// `k` is the key of some four bytes of `data`.
pub open spec fn is_window_key(data: Seq<u8>, k: u32) -> bool {
    exists|o: int| 0 <= o && o + 4 <= data.len() && chunk_key(chunk_at(data, o)) == k
}

/// The chunk index of `lines`: every key lists exactly the sites whose four
/// bytes have that key.
pub open spec fn index_wf(map: Map<u32, Vec<Match>>, lines: Seq<Seq<u8>>) -> bool {
    &&& forall|k: u32, m: Match|
        map.contains_key(k) && #[trigger] map[k]@.contains(m) ==> valid_site(lines, m)
            && site_key(lines, m) == k
    &&& forall|m: Match| #[trigger]
        valid_site(lines, m) ==> map.contains_key(site_key(lines, m)) && map[site_key(
            lines,
            m,
        )]@.contains(m)
    &&& no_dups(map)
}

/// No key lists a site twice.
pub open spec fn no_dups(map: Map<u32, Vec<Match>>) -> bool {
    forall|k: u32| #[trigger] map.contains_key(k) ==> map[k]@.no_duplicates()
}

/// Adds a site under `k`.
pub(crate) fn add_site(map: &mut FnvHashMap<u32, Vec<Match>>, k: u32, m: Match)
    requires
        no_dups(old(map)@),
        old(map)@.contains_key(k) ==> !old(map)@[k]@.contains(m),
    ensures
        no_dups(final(map)@),
        final(map)@.contains_key(k),
        forall|k2: u32| old(map)@.contains_key(k2) ==> #[trigger] final(map)@.contains_key(k2),
        forall|k2: u32| k2 != k ==> (#[trigger] final(map)@.contains_key(k2) <==> old(map)@.contains_key(k2)),
        forall|k2: u32, m2: Match|
            final(map)@.contains_key(k2) ==> (#[trigger] final(map)@[k2]@.contains(m2) <==> (
            old(map)@.contains_key(k2) && old(map)@[k2]@.contains(m2)) || (k2 == k && m2 == m)),
{
    let mut v = match sites_remove(map, k) {
        Some(v) => v,
        None => Vec::new(),
    };
    let ghost pre = v@;
    assert(old(map)@.contains_key(k) ==> pre == old(map)@[k]@);
    assert(!old(map)@.contains_key(k) ==> pre.len() == 0);
    v.push(m);
    proof {
        assert(v@.no_duplicates()) by {
            assert(!pre.contains(m));
            assert forall|i: int, j: int| 0 <= i < v@.len() && 0 <= j < v@.len() && i != j implies v@[i]
                != v@[j] by {
                if i < pre.len() && j < pre.len() {
                    assert(pre.no_duplicates());
                } else if i < pre.len() {
                    assert(v@[j] == m);
                    assert(pre[i] == v@[i]);
                } else if j < pre.len() {
                    assert(v@[i] == m);
                    assert(pre[j] == v@[j]);
                }
            }
        }
        assert forall|m2: Match| v@.contains(m2) <==> pre.contains(m2) || m2 == m by {
            if v@.contains(m2) {
                let j = choose|j: int| 0 <= j < v@.len() && v@[j] == m2;
                if j < pre.len() {
                    assert(pre[j] == m2);
                }
            }
            if pre.contains(m2) {
                let j = choose|j: int| 0 <= j < pre.len() && pre[j] == m2;
                assert(v@[j] == m2);
            }
            if m2 == m {
                assert(v@[pre.len() as int] == m2);
            }
        }
    }
    let ghost mid = map@;
    sites_insert(map, k, v);
    proof {
        assert forall|k2: u32, m2: Match| map@.contains_key(k2) implies (
        #[trigger] map@[k2]@.contains(m2) <==> (old(map)@.contains_key(k2) && old(map)@[k2]@.contains(
            m2,
        )) || (k2 == k && m2 == m)) by {
            if k2 != k {
                assert(map@[k2] == old(map)@[k2]);
            } else {
                assert(map@[k2] == v);
                assert(v@.contains(m2) <==> pre.contains(m2) || m2 == m);
                if !old(map)@.contains_key(k) {
                    assert(!pre.contains(m2));
                }
            }
        }
        assert forall|k2: u32| #[trigger] map@.contains_key(k2) implies map@[k2]@.no_duplicates() by {
            if k2 != k {
                assert(map@[k2] == old(map)@[k2]);
            }
        }
    }
}

/// Adds to the index every four-byte window of `data`, as sites of line `line`.
pub(crate) fn index_add(map: &mut FnvHashMap<u32, Vec<Match>>, line: usize, data: &Vec<u8>)
    requires
        no_dups(old(map)@),
        forall|k: u32, m: Match|
            old(map)@.contains_key(k) && #[trigger] old(map)@[k]@.contains(m) ==> m.line != line,
    ensures
        no_dups(final(map)@),
        forall|k: u32| old(map)@.contains_key(k) ==> #[trigger] final(map)@.contains_key(k),
        forall|m: Match|
            m.line == line && m.offset + 4 <= data@.len() ==> final(map)@.contains_key(
                #[trigger] chunk_key(chunk_at(data@, m.offset as int)),
            ) && final(map)@[chunk_key(chunk_at(data@, m.offset as int))]@.contains(m),
        forall|k: u32, m: Match|
            final(map)@.contains_key(k) && #[trigger] final(map)@[k]@.contains(m) ==> (
            old(map)@.contains_key(k) && old(map)@[k]@.contains(m)) || (m.line == line && m.offset
                + 4 <= data@.len() && chunk_key(chunk_at(data@, m.offset as int)) == k),
        forall|k: u32, m: Match|
            old(map)@.contains_key(k) && #[trigger] old(map)@[k]@.contains(m) ==> final(map)@[k]@.contains(m),
{
    if data.len() < 4 {
        return;
    }
    let end = data.len() - 3;
    let mut o: usize = 0;
    while o < end
        invariant
            end + 3 == data@.len(),
            data@.len() <= usize::MAX,
            o <= end,
            no_dups(map@),
            forall|k: u32, m: Match|
                old(map)@.contains_key(k) && #[trigger] old(map)@[k]@.contains(m) ==> m.line != line,
            forall|k: u32| old(map)@.contains_key(k) ==> #[trigger] map@.contains_key(k),
            forall|m: Match|
                m.line == line && m.offset < o ==> map@.contains_key(
                    #[trigger] chunk_key(chunk_at(data@, m.offset as int)),
                ) && map@[chunk_key(chunk_at(data@, m.offset as int))]@.contains(m),
            forall|k: u32, m: Match|
                map@.contains_key(k) && #[trigger] map@[k]@.contains(m) ==> (old(map)@.contains_key(
                    k,
                ) && old(map)@[k]@.contains(m)) || (m.line == line && m.offset < o && chunk_key(
                    chunk_at(data@, m.offset as int),
                ) == k),
            forall|k: u32, m: Match|
                old(map)@.contains_key(k) && #[trigger] old(map)@[k]@.contains(m) ==> map@[k]@.contains(m),
        decreases end - o,
    {
        let k = slice_to_u32(&data[o..o + 4]);
        proof {
            assert(data@.subrange(o as int, o + 4) == chunk_at(data@, o as int));
        }
        let ghost pre = map@;
        proof {
            if map@.contains_key(k) && map@[k]@.contains(Match { line, offset: o }) {
                assert(false);
            }
        }
        add_site(map, k, Match { line, offset: o });
        proof {
            assert forall|m: Match|
                m.line == line && m.offset < o + 1 implies map@.contains_key(
                #[trigger] chunk_key(chunk_at(data@, m.offset as int)),
            ) && map@[chunk_key(chunk_at(data@, m.offset as int))]@.contains(m) by {
                let k2 = chunk_key(chunk_at(data@, m.offset as int));
                if m.offset < o {
                    assert(pre[k2]@.contains(m));
                } else {
                    assert(m == Match { line, offset: o });
                }
                assert(map@[k2]@.contains(m) && map@.contains_key(k2));
            }
        }
        o = o + 1;
    }
}

/// The sites of `v` that are not on line `line`, in order.
pub(crate) fn without_line(v: &Vec<Match>, line: usize) -> (w: Vec<Match>)
    ensures
        forall|m: Match| #[trigger] w@.contains(m) <==> v@.contains(m) && m.line != line,
        v@.no_duplicates() ==> w@.no_duplicates(),
{
    let mut w: Vec<Match> = Vec::new();
    let mut j: usize = 0;
    while j < v.len()
        invariant
            j <= v@.len(),
            forall|m: Match|
                #[trigger] w@.contains(m) <==> v@.take(j as int).contains(m) && m.line != line,
            v@.no_duplicates() ==> w@.no_duplicates(),
        decreases v@.len() - j,
    {
        let m = v[j];
        let ghost pre = w@;
        if m.line != line {
            w.push(m);
        }
        proof {
            assert(v@.take(j + 1) =~= v@.take(j as int).push(m));
            assert forall|m2: Match| #[trigger]
                w@.contains(m2) <==> v@.take(j + 1).contains(m2) && m2.line != line by {
                if w@.contains(m2) {
                    let i = choose|i: int| 0 <= i < w@.len() && w@[i] == m2;
                    if i < pre.len() {
                        assert(pre.contains(m2));
                    }
                }
                if pre.contains(m2) {
                    let i = choose|i: int| 0 <= i < pre.len() && pre[i] == m2;
                    assert(w@[i] == m2);
                }
                let t0 = v@.take(j as int);
                let t1 = v@.take(j + 1);
                assert(t1[j as int] == m);
                assert(m.line != line ==> w@ == pre.push(m));
                assert(m.line == line ==> w@ == pre);
                if w@.contains(m2) {
                    let i = choose|i: int| 0 <= i < w@.len() && w@[i] == m2;
                    if i < pre.len() {
                        assert(pre[i] == m2);
                        assert(pre.contains(m2));
                        assert(t0.contains(m2));
                        let i2 = choose|i2: int| 0 <= i2 < t0.len() && #[trigger] t0[i2] == m2;
                        assert(t1[i2] == m2);
                    } else {
                        assert(m2 == m);
                    }
                }
                if t0.contains(m2) {
                    let i = choose|i: int| 0 <= i < t0.len() && #[trigger] t0[i] == m2;
                    assert(t1[i] == m2);
                }
                if t1.contains(m2) {
                    let i = choose|i: int| 0 <= i < t1.len() && #[trigger] t1[i] == m2;
                    if i < j {
                        assert(t0[i] == m2);
                    }
                }
                if m2 == m && m.line != line {
                    assert(w@[pre.len() as int] == m2);
                }
            }
            if v@.no_duplicates() && m.line != line {
                assert(!pre.contains(m)) by {
                    if pre.contains(m) {
                        assert(v@.take(j as int).contains(m));
                        let i = choose|i: int| 0 <= i < j && v@.take(j as int)[i] == m;
                        assert(v@[i] == v@[j as int]);
                    }
                }
                assert forall|a: int, b: int| 0 <= a < w@.len() && 0 <= b < w@.len() && a != b implies w@[a]
                    != w@[b] by {
                    if a < pre.len() && b < pre.len() {
                        assert(pre[a] == w@[a] && pre[b] == w@[b]);
                    } else if a < pre.len() {
                        assert(pre[a] == w@[a]);
                    } else if b < pre.len() {
                        assert(pre[b] == w@[b]);
                    }
                }
            }
        }
        j = j + 1;
    }
    proof {
        assert(v@.take(j as int) =~= v@);
    }
    w
}

/// Takes out of the index every site of line `line` filed under a key of a
/// four-byte window of `data`.
pub(crate) fn index_remove(map: &mut FnvHashMap<u32, Vec<Match>>, line: usize, data: &Vec<u8>)
    requires
        no_dups(old(map)@),
    ensures
        no_dups(final(map)@),
        forall|k: u32| #[trigger] final(map)@.contains_key(k) <==> old(map)@.contains_key(k),
        forall|k: u32, m: Match|
            old(map)@.contains_key(k) ==> (#[trigger] final(map)@[k]@.contains(m) <==> old(
                map,
            )@[k]@.contains(m) && !(m.line == line && is_window_key(data@, k))),
{
    if data.len() < 4 {
        return;
    }
    let end = data.len() - 3;
    let mut o: usize = 0;
    while o < end
        invariant
            end + 3 == data@.len(),
            data@.len() <= usize::MAX,
            o <= end,
            no_dups(map@),
            forall|k: u32| #[trigger] map@.contains_key(k) <==> old(map)@.contains_key(k),
            forall|k: u32, m: Match|
                old(map)@.contains_key(k) ==> (#[trigger] map@[k]@.contains(m) <==> old(
                    map,
                )@[k]@.contains(m) && !(m.line == line && exists|o2: int|
                    0 <= o2 < o && chunk_key(chunk_at(data@, o2)) == k)),
        decreases end - o,
    {
        let k = slice_to_u32(&data[o..o + 4]);
        proof {
            assert(data@.subrange(o as int, o + 4) == chunk_at(data@, o as int));
        }
        let ghost pre = map@;
        if let Some(v) = sites_remove(map, k) {
            let w = without_line(&v, line);
            sites_insert(map, k, w);
            proof {
                assert forall|k2: u32| #[trigger] map@.contains_key(k2) implies map@[k2]@.no_duplicates() by {
                    if k2 != k {
                        assert(map@[k2] == pre[k2]);
                    }
                }
            }
        }
        proof {
            assert forall|k2: u32, m: Match| old(map)@.contains_key(k2) implies (
            #[trigger] map@[k2]@.contains(m) <==> old(map)@[k2]@.contains(m) && !(m.line == line
                && exists|o2: int| 0 <= o2 < o + 1 && chunk_key(chunk_at(data@, o2)) == k2)) by {
                if k2 != k {
                    assert(map@[k2] == pre[k2]);
                    if exists|o2: int| 0 <= o2 < o + 1 && chunk_key(chunk_at(data@, o2)) == k2 {
                        let o2 = choose|o2: int|
                            0 <= o2 < o + 1 && chunk_key(chunk_at(data@, o2)) == k2;
                        assert(o2 < o);
                    }
                } else {
                    assert(exists|o2: int| 0 <= o2 < o + 1 && chunk_key(chunk_at(data@, o2)) == k2)
                        by {
                        assert(chunk_key(chunk_at(data@, o as int)) == k2);
                    }
                }
            }
        }
        o = o + 1;
    }
    proof {
        assert forall|k: u32, m: Match| old(map)@.contains_key(k) implies (
        #[trigger] map@[k]@.contains(m) <==> old(map)@[k]@.contains(m) && !(m.line == line
            && is_window_key(data@, k))) by {
            if is_window_key(data@, k) {
                let o2 = choose|o2: int|
                    0 <= o2 && o2 + 4 <= data@.len() && chunk_key(chunk_at(data@, o2)) == k;
                assert(0 <= o2 < o);
            }
        }
    }
}

} // verus!
