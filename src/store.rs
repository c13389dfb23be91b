use vstd::prelude::*;

use fnv::FnvHashMap;
use slab::Slab;

use crate::cache::CacheEntry;

verus! {

/// A site where a four-byte chunk occurs: the history line and the offset of
/// the chunk's first byte in it.
#[derive(Clone, Copy, Debug, PartialEq, Eq, Structural)]
pub struct Match {
    pub line: usize,
    pub offset: usize,
}

/// slab's `Slab`, which holds the history's records under stable keys.
#[verifier::external_type_specification]
#[verifier::external_body]
#[verifier::reject_recursive_types(T)]
pub struct ExSlab<T>(Slab<T>);

/// fnv's hasher, which the chunk index's map hashes keys with.
#[verifier::external_type_specification]
#[verifier::external_body]
pub struct ExFnvHasher(fnv::FnvHasher);

/// std's `BuildHasherDefault`, through which the map builds fnv hashers.
#[verifier::external_type_specification]
#[verifier::external_body]
#[verifier::reject_recursive_types(H)]
pub struct ExBuildHasherDefault<H>(std::hash::BuildHasherDefault<H>);

/// What a slab of history entries holds: for each occupied key, the entry's
/// bytes and its hit counter.
pub uninterp spec fn slab_entries(s: Slab<CacheEntry>) -> Map<usize, (Seq<u8>, usize)>;

/// The number of slots of a slab, occupied or vacant.
pub uninterp spec fn slab_slots(s: Slab<CacheEntry>) -> nat;

/// Relies on `Slab::with_capacity`: the new slab holds nothing and has no slot.
#[verifier::external_body]
pub(crate) fn slab_new(capacity: usize) -> (s: Slab<CacheEntry>)
    requires
        capacity <= 0x1_0000,
    ensures
        slab_entries(s).dom() == Set::<usize>::empty(),
        slab_slots(s) == 0,
{
    Slab::with_capacity(capacity)
}

/// Relies on `Slab::insert`: the value goes under a key that was vacant; a
/// slab with no vacant slot appends one, whose key is the old slot count.
#[verifier::external_body]
pub(crate) fn slab_insert(s: &mut Slab<CacheEntry>, e: CacheEntry) -> (k: usize)
    requires
        slab_slots(*old(s)) < 0x1_0000,
    ensures
        !slab_entries(*old(s)).contains_key(k),
        slab_entries(*final(s)) == slab_entries(*old(s)).insert(k, (e.data@, e.hits)),
        slab_entries(*old(s)).len() == slab_slots(*old(s)) ==> k == slab_slots(*old(s))
            && slab_slots(*final(s)) == slab_slots(*old(s)) + 1,
{
    s.insert(e)
}

/// Relies on `Index for Slab`: the entry under an occupied key.
#[verifier::external_body]
pub(crate) fn slab_get(s: &Slab<CacheEntry>, k: usize) -> (e: &CacheEntry)
    requires
        slab_entries(*s).contains_key(k),
    ensures
        slab_entries(*s)[k] == (e.data@, e.hits),
{
    &s[k]
}

/// Relies on `IndexMut for Slab`: the entry under an occupied key, to be
/// changed in place; the other keys and the slot count stay.
#[verifier::external_body]
pub(crate) fn slab_get_mut(s: &mut Slab<CacheEntry>, k: usize) -> (e: &mut CacheEntry)
    requires
        slab_entries(*old(s)).contains_key(k),
    ensures
        slab_entries(*old(s))[k] == (e.data@, e.hits),
        slab_entries(*final(s)) == slab_entries(*old(s)).insert(k, (final(e).data@, final(e).hits)),
        slab_slots(*final(s)) == slab_slots(*old(s)),
{
    &mut s[k]
}

/// Relies on `HashMap::default` with fnv's hasher: an empty map.
#[verifier::external_body]
pub(crate) fn sites_new() -> (m: FnvHashMap<u32, Vec<Match>>)
    ensures
        m@.dom() == Set::<u32>::empty(),
{
    FnvHashMap::default()
}

/// Relies on `HashMap::get` with fnv's hasher, which hashes a key the same
/// way every time: the value under `k`, if any.
#[verifier::external_body]
pub(crate) fn sites_get(m: &FnvHashMap<u32, Vec<Match>>, k: u32) -> (r: Option<&Vec<Match>>)
    ensures
        match r {
            Some(v) => m@.contains_key(k) && m@[k] == *v,
            None => !m@.contains_key(k),
        },
{
    m.get(&k)
}

/// Relies on `HashMap::insert` with fnv's hasher: `k` now maps to `v`.
#[verifier::external_body]
pub(crate) fn sites_insert(m: &mut FnvHashMap<u32, Vec<Match>>, k: u32, v: Vec<Match>)
    ensures
        final(m)@ == old(m)@.insert(k, v),
{
    m.insert(k, v);
}

/// Relies on `HashMap::remove` with fnv's hasher: takes out the value under
/// `k`, if any.
#[verifier::external_body]
pub(crate) fn sites_remove(m: &mut FnvHashMap<u32, Vec<Match>>, k: u32) -> (r: Option<Vec<Match>>)
    ensures
        final(m)@ == old(m)@.remove(k),
        match r {
            Some(v) => old(m)@.contains_key(k) && old(m)@[k] == v,
            None => !old(m)@.contains_key(k),
        },
{
    m.remove(&k)
}

} // verus!
