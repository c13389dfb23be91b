use vstd::prelude::*;

verus! {

/// A record kept in a history, with the number of its bytes that later
/// records have copied.
pub struct CacheEntry {
    pub hits: usize,
    pub data: Vec<u8>,
}

/// A history kept in a vector, most recent records last while there is
/// room.
pub type VecCache = Vec<CacheEntry>;

/// The most records a `VecCache` holds.
pub const VEC_CACHE_SIZE: usize = 256;

/// What a `VecCache` holds: each entry's bytes and hit counter.
pub open spec fn cache_view(c: Seq<CacheEntry>) -> Seq<(Seq<u8>, usize)> {
    Seq::new(c.len(), |i: int| (c[i].data@, c[i].hits))
}

/// Index of the entry with the fewest hits among the first `n`, the lowest
/// among equals.
pub open spec fn least_hits_upto(c: Seq<(Seq<u8>, usize)>, n: nat) -> nat
    decreases n,
{
    if n <= 1 {
        0
    } else {
        let k = least_hits_upto(c, (n - 1) as nat);
        if c[n - 1].1 < c[k as int].1 {
            (n - 1) as nat
        } else {
            k
        }
    }
}

/// Adds `buf` with no hits: at the end while there is room, else in place
/// of the entry with the fewest hits.
pub open spec fn cache_insert_spec(c: Seq<(Seq<u8>, usize)>, buf: Seq<u8>) -> Seq<(Seq<u8>, usize)> {
    if c.len() < VEC_CACHE_SIZE {
        c.push((buf, 0))
    } else {
        c.update(least_hits_upto(c, c.len()) as int, (buf, 0))
    }
}

/// A history that records can be added to.
pub trait DSSCache {
    fn cache_insert(&mut self, buf: &[u8]);
}

impl DSSCache for VecCache {
    fn cache_insert(&mut self, buf: &[u8])
        ensures
            cache_view(final(self)@) == cache_insert_spec(cache_view(old(self)@), buf@),
    {
        let mut data: Vec<u8> = Vec::new();
        let mut i: usize = 0;
        while i < buf.len()
            invariant
                i <= buf@.len(),
                data@ == buf@.take(i as int),
            decreases buf@.len() - i,
        {
            data.push(buf[i]);
            proof {
                assert(buf@.take(i + 1) =~= buf@.take(i as int).push(buf@[i as int]));
            }
            i = i + 1;
        }
        proof {
            assert(buf@.take(i as int) =~= buf@);
        }
        let ghost c = cache_view(self@);
        let len = self.len();
        if len >= VEC_CACHE_SIZE {
            let mut k: usize = 0;
            let mut j: usize = 1;
            while j < len
                invariant
                    len == self@.len(),
                    c == cache_view(self@),
                    1 <= j <= len,
                    k < j,
                    k == least_hits_upto(c, j as nat),
                decreases len - j,
            {
                if self[j].hits < self[k].hits {
                    k = j;
                }
                j = j + 1;
            }
            self.set(k, CacheEntry { hits: 0, data });
            proof {
                assert(cache_view(self@) =~= c.update(k as int, (buf@, 0)));
            }
        } else {
            self.push(CacheEntry { hits: 0, data });
            proof {
                assert(cache_view(self@) =~= c.push((buf@, 0)));
            }
        }
    }
}

} // verus!
