use dssc::cache::{CacheEntry, DSSCache, VecCache};
use dssc::convolve::ConvolveCompressor;
use dssc::CodecError;

fn entry(data: &[u8], hits: usize) -> CacheEntry {
    CacheEntry { hits, data: data.to_vec() }
}

fn round_trip(rec: &[u8], cache: &VecCache) -> (usize, Vec<u8>) {
    let mut c = ConvolveCompressor {};
    let mut out = Vec::new();
    let k = c.compress(rec, &mut out, cache);
    let mut back = Vec::new();
    let k2 = c.decompress(&out, &mut back, cache).unwrap();
    assert_eq!(k, k2);
    assert_eq!(back, rec.to_vec());
    (k, out)
}

#[test]
fn convolve_without_history_codes_the_record_itself() {
    let cache: VecCache = Vec::new();
    let (k, out) = round_trip(b"ab\0\0\0c", &cache);
    assert_eq!(k, 0);
    // entry 0, offset 0, then "ab", three zeros as 0 3, "c"
    assert_eq!(out, vec![0, 0, b'a', b'b', 0, 3, b'c']);
}

#[test]
fn convolve_picks_the_best_entry_and_offset() {
    let cache = vec![entry(b"zzzzzz", 0), entry(b"xxHello World", 0)];
    let (k, out) = round_trip(b"Hello Wor1d", &cache);
    assert_eq!(k, 1);
    // offset 2 lines the record up with "Hello World"; only '1' differs
    assert_eq!(out[0], 1);
    assert_eq!(out[1], 2);
    assert_eq!(out[2..].to_vec(), vec![0, 9, b'1' ^ b'l', 0, 1]);
}

#[test]
fn convolve_long_zero_runs_are_split() {
    let cache = vec![entry(&[7u8; 600], 0)];
    let rec = vec![7u8; 600];
    let (_, out) = round_trip(&rec, &cache);
    // 600 zeros: runs of 255, 255 and 90
    assert_eq!(out[2..].to_vec(), vec![0, 255, 0, 255, 0, 90]);
    let cache: VecCache = Vec::new();
    round_trip(&vec![0u8; 1000], &cache);
}

#[test]
fn convolve_record_longer_than_the_entry() {
    let cache = vec![entry(b"abc", 0)];
    round_trip(b"abcdefghij", &cache);
}

#[test]
fn convolve_decode_errors() {
    let mut c = ConvolveCompressor {};
    let cache = vec![entry(b"abc", 0)];
    let mut out = Vec::new();
    assert_eq!(c.decompress(&[], &mut out, &cache), Err(CodecError::Malformed));
    assert_eq!(c.decompress(&[0, 0x80], &mut out, &cache), Err(CodecError::Malformed));
    assert_eq!(c.decompress(&[3, 0, b'x'], &mut out, &cache), Err(CodecError::DesyncState));
    assert_eq!(c.decompress(&[0, 9, b'x'], &mut out, &cache), Err(CodecError::DesyncState));
    assert!(out.is_empty());
}

#[test]
fn vec_cache_replaces_the_entry_with_fewest_hits() {
    let mut cache: VecCache = Vec::new();
    for i in 0..256u32 {
        cache.cache_insert(&i.to_le_bytes());
    }
    assert_eq!(cache.len(), 256);
    for (i, e) in cache.iter_mut().enumerate() {
        e.hits = 10 + i;
    }
    cache[7].hits = 3;
    cache[9].hits = 3;
    cache.cache_insert(b"new");
    assert_eq!(cache.len(), 256);
    assert_eq!(cache[7].data, b"new".to_vec());
    assert_eq!(cache[7].hits, 0);
    assert_eq!(cache[9].data, 9u32.to_le_bytes().to_vec());
}
