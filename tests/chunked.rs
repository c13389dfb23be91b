use dssc::cache::{CacheEntry, VecCache};
use dssc::chunked::ChunkedCompressor;
use dssc::CodecError;

fn cache_of(items: &[&[u8]]) -> VecCache {
    items.iter().map(|d| CacheEntry { hits: 0, data: d.to_vec() }).collect()
}

fn round_trip(rec: &[u8], cache: &VecCache) -> (usize, Vec<u8>) {
    let c = ChunkedCompressor {};
    let mut out = vec![0xEE];
    let k = c.compress(rec, &mut out, cache);
    assert_eq!(out[0], 0xEE);
    let mut back = Vec::new();
    assert_eq!(c.decompress(&out[1..], &mut back, cache), Ok(k));
    assert_eq!(back, rec.to_vec());
    (k, out[1..].to_vec())
}

#[test]
fn chunked_without_history_is_one_literal() {
    let cache: VecCache = Vec::new();
    let (k, out) = round_trip(b"Hello World\n", &cache);
    assert_eq!(k, 0);
    let mut expected = vec![0, 0, 12];
    expected.extend_from_slice(b"Hello World\n");
    assert_eq!(out, expected);
}

#[test]
fn chunked_copies_runs_of_chunks() {
    let cache = cache_of(&[b"nothing alike", b"Hello Brave New World\n"]);
    let (k, out) = round_trip(b"Hello Brave Old World\n", &cache);
    assert_eq!(k, 1);
    // "Hello Brave " is three chunks found in a row at offset 0
    assert_eq!(out[0], 1);
    assert_eq!(&out[1..3], &[1, 12]);
}

#[test]
fn chunked_various_records_round_trip() {
    let cache = cache_of(&[
        b"GET /index.html HTTP/1.1 200 1043\n",
        b"POST /api/login HTTP/1.1 401 12\n",
        b"",
        b"ab",
    ]);
    for rec in [
        &b"GET /index.html HTTP/1.1 304 0\n"[..],
        b"POST /api/login HTTP/1.1 200 512\n",
        b"completely different text here\n",
        b"",
        b"abc",
        b"HTTP/1.1 HTTP/1.1 HTTP/1.1",
    ] {
        round_trip(rec, &cache);
    }
}

#[test]
fn chunked_decode_errors() {
    let c = ChunkedCompressor {};
    let cache = cache_of(&[b"abcdefgh"]);
    let mut out = Vec::new();
    assert_eq!(c.decompress(&[], &mut out, &cache), Err(CodecError::Malformed));
    assert_eq!(c.decompress(&[5, 0, 1, b'x'], &mut out, &cache), Err(CodecError::DesyncState));
    assert_eq!(c.decompress(&[0, 0, 3, b'x'], &mut out, &cache), Err(CodecError::Malformed));
    assert_eq!(c.decompress(&[0, 9, 2], &mut out, &cache), Err(CodecError::DesyncState));
    assert_eq!(c.decompress(&[0, 0x80, 0x00, 2], &mut out, &cache), Err(CodecError::Malformed));
    assert!(out.is_empty());
    assert_eq!(c.decompress(&[0, 3, 2, 0, 1, b'!'], &mut out, &cache), Ok(0));
    assert_eq!(out, b"cd!".to_vec());
}
