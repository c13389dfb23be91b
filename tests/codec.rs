use dssc::chunkmap::{differs_at, differs_back, slice_to_u32, ChunkMap};
use dssc::frame::{next_frame, write_frame};
use dssc::{CodecError, Compressor};

fn fresh() -> ChunkMap {
    ChunkMap::new(1, 2)
}

fn enc(c: &mut ChunkMap, rec: &[u8]) -> Vec<u8> {
    let mut out = Vec::new();
    c.encode(rec, &mut out);
    out
}

fn dec(c: &mut ChunkMap, input: &[u8]) -> Result<Vec<u8>, CodecError> {
    let mut out = Vec::new();
    c.decode(input, &mut out).map(|_| out)
}

fn same_history(a: &ChunkMap, b: &ChunkMap) {
    assert_eq!(a.len(), b.len());
    for k in 0..a.len() {
        assert_eq!(a.line(k), b.line(k));
        assert_eq!(a.hits(k), b.hits(k));
    }
}

#[test]
pub fn diff_test() {
    let a = b"helloworls";
    let b = b"helloworld";
    println!("{:?}", differs_at(a, b));
    assert_eq!(differs_at(a, b), 9);
}

#[test]
fn differs_back_stops_before_the_first_byte() {
    assert_eq!(differs_back(b"xabc", b"yabc"), 3);
    assert_eq!(differs_back(b"abc", b"abc"), 2);
    assert_eq!(differs_back(b"", b"abc"), 0);
}

#[test]
fn chunk_key_is_little_endian() {
    assert_eq!(slice_to_u32(&[1, 2, 3, 4]), 0x04030201);
}

#[test]
fn first_record_is_one_literal_block() {
    let mut e = fresh();
    let mut d = fresh();
    let rec = b"Hello World\n";
    let out = enc(&mut e, rec);
    let mut expected = vec![0x00, 12];
    expected.extend_from_slice(rec);
    assert_eq!(out, expected);
    assert_eq!(dec(&mut d, &out).unwrap(), rec.to_vec());
    assert_eq!(e.len(), 1);
    assert_eq!(e.line(0), Some(&rec[..]));
    same_history(&e, &d);
}

#[test]
fn second_record_copies_from_the_first() {
    let mut e = fresh();
    let mut d = fresh();
    let first = enc(&mut e, b"Hello World\n");
    dec(&mut d, &first).unwrap();
    let rec = b"Hello Brave World\n";
    let out = enc(&mut e, rec);
    // "Hello " from line 0, "Brave" literally, " World\n" from line 0
    let expected = vec![1, 6, 0, 0, 5, b'B', b'r', b'a', b'v', b'e', 1, 7, 5];
    assert_eq!(out, expected);
    assert_eq!(dec(&mut d, &out).unwrap(), rec.to_vec());
    assert_eq!(e.hits(0), Some(13));
    assert_eq!(e.len(), 2);
    same_history(&e, &d);
}

#[test]
fn history_stops_growing_at_capacity() {
    let mut e = fresh();
    let mut d = fresh();
    let recs: Vec<Vec<u8>> = (0..250u32)
        .map(|i| vec![b'a' + (i % 26) as u8, b'a' + (i / 26) as u8, b'\n'])
        .collect();
    for r in &recs {
        let out = enc(&mut e, r);
        assert_eq!(dec(&mut d, &out).unwrap(), *r);
        assert!(e.len() <= 245);
    }
    assert_eq!(e.len(), 245);
    same_history(&e, &d);
    // every counter is zero, so each eviction takes the lowest line
    assert_eq!(e.line(0), Some(&recs[249][..]));
    for k in 1..245 {
        assert_eq!(e.line(k), Some(&recs[k][..]));
    }
    let kept: Vec<&[u8]> = (0..245).map(|k| e.line(k).unwrap()).collect();
    for gone in [0usize, 245, 246, 247, 248] {
        assert!(!kept.contains(&&recs[gone][..]));
    }
}

#[test]
fn eviction_keeps_the_useful_line() {
    let mut e = fresh();
    let mut d = fresh();
    let base = b"the quick brown fox jumps\n".to_vec();
    let out = enc(&mut e, &base);
    dec(&mut d, &out).unwrap();
    for i in 0..244u32 {
        let r = vec![b'0' + (i % 10) as u8, b'a' + (i / 10) as u8, b'\n'];
        let out = enc(&mut e, &r);
        dec(&mut d, &out).unwrap();
    }
    assert_eq!(e.len(), 245);
    // copying from line 0 gives it hits
    let out = enc(&mut e, b"the quick brown fox jumps\n");
    assert_eq!(dec(&mut d, &out).unwrap(), base);
    assert!(e.hits(0).unwrap() > 0);
    let out = enc(&mut e, b"zz\n");
    dec(&mut d, &out).unwrap();
    assert_eq!(e.line(0), Some(&base[..]));
    assert_eq!(e.line(1), Some(&b"zz\n"[..]));
    same_history(&e, &d);
}

#[test]
fn malformed_frame_refers_to_a_missing_line() {
    let stream = [0x03, 0x81, 0x01, 0x00];
    let mut pos = 0;
    let (start, len) = next_frame(&stream, &mut pos).unwrap().unwrap();
    assert_eq!((start, len), (1, 3));
    assert_eq!(pos, 4);
    let mut d = fresh();
    assert_eq!(dec(&mut d, &stream[start..start + len]), Err(CodecError::DesyncState));
    assert_eq!(d.len(), 0);
    assert_eq!(next_frame(&stream, &mut pos), Ok(None));
}

#[test]
fn encoders_are_deterministic() {
    let lines: Vec<&[u8]> = vec![
        b"GET /index.html 200\n",
        b"GET /index.html 304\n",
        b"POST /login 200\n",
        b"GET /index.html 200\n",
        b"POST /login 401\n",
    ];
    let mut a = fresh();
    let mut b = fresh();
    for l in &lines {
        assert_eq!(enc(&mut a, l), enc(&mut b, l));
    }
    same_history(&a, &b);
}

#[test]
fn stream_round_trip_keeps_histories_in_step() {
    let mut e = fresh();
    let mut d = fresh();
    let mut framed = Vec::new();
    let lines: Vec<Vec<u8>> = (0..60u32)
        .map(|i| format!("2024-01-01 12:00:{:02} host{} request id={} ok\n", i % 60, i % 3, i * 37).into_bytes())
        .collect();
    for l in &lines {
        let out = enc(&mut e, l);
        write_frame(&out, &mut framed);
    }
    let mut pos = 0;
    let mut got = Vec::new();
    while let Some((start, len)) = next_frame(&framed, &mut pos).unwrap() {
        got.push(dec(&mut d, &framed[start..start + len]).unwrap());
    }
    assert_eq!(got, lines);
    same_history(&e, &d);
    assert!(e.len() > 1);
}

#[test]
fn empty_record_encodes_to_nothing() {
    let mut e = fresh();
    assert_eq!(enc(&mut e, b""), Vec::<u8>::new());
    assert_eq!(e.len(), 0);
    let mut d = fresh();
    assert_eq!(dec(&mut d, &[]), Ok(vec![]));
    assert_eq!(d.len(), 0);
}

#[test]
fn decode_errors() {
    let mut d = fresh();
    let first = {
        let mut e = fresh();
        enc(&mut e, b"abcdefgh\n")
    };
    dec(&mut d, &first).unwrap();
    // literal longer than what follows
    assert_eq!(dec(&mut d, &[0x00, 0x05, b'a']), Err(CodecError::Malformed));
    // truncated tag varint
    assert_eq!(dec(&mut d, &[0x80]), Err(CodecError::Malformed));
    // copy without its offset
    assert_eq!(dec(&mut d, &[0x01, 0x02]), Err(CodecError::Malformed));
    // copy past the end of the line
    assert_eq!(dec(&mut d, &[0x01, 0x04, 0x07]), Err(CodecError::DesyncState));
    // line that does not exist
    assert_eq!(dec(&mut d, &[0x02, 0x01, 0x00]), Err(CodecError::DesyncState));
    // a good block followed by a bad one changes nothing
    assert_eq!(d.hits(0), Some(0));
    assert_eq!(dec(&mut d, &[0x01, 0x02, 0x00, 0x09]), Err(CodecError::DesyncState));
    assert_eq!(d.hits(0), Some(0));
    assert_eq!(d.len(), 1);
    assert_eq!(dec(&mut d, &[0x01, 0x03, 0x02]), Ok(b"cde".to_vec()));
    assert_eq!(d.hits(0), Some(3));
}

#[test]
fn frame_running_past_the_end_is_malformed() {
    let mut pos = 0;
    assert_eq!(next_frame(&[0x05, 1, 2], &mut pos), Err(CodecError::Malformed));
    assert_eq!(pos, 0);
    assert_eq!(next_frame(&[0x80], &mut pos), Err(CodecError::Malformed));
}

#[test]
fn threshold_decides_insertion() {
    // a ratio test that nothing passes
    let mut e = ChunkMap::new(1000, 1);
    enc(&mut e, b"Hello World\n");
    assert_eq!(e.len(), 0);
}

#[test]
fn long_stream_with_evictions_round_trips() {
    let mut e = fresh();
    let mut d = fresh();
    let mut seed: u64 = 12345;
    let mut cached_after_fill = 0;
    for i in 0..600u32 {
        let mut rec = Vec::new();
        for _ in 0..24 {
            seed = seed.wrapping_mul(6364136223846793005).wrapping_add(1442695040888963407);
            rec.push(b'a' + ((seed >> 33) % 26) as u8);
        }
        if i % 7 == 0 && i > 0 {
            // now and then a record close to a recent one
            rec[..12].copy_from_slice(&e.line(e.len() - 1).unwrap()[..12]);
        }
        rec.push(b'\n');
        let out = enc(&mut e, &rec);
        assert_eq!(dec(&mut d, &out).unwrap(), rec);
        assert!(e.len() <= 245);
        if i == 300 {
            cached_after_fill = e.len();
        }
    }
    assert_eq!(cached_after_fill, 245);
    assert_eq!(e.len(), 245);
    same_history(&e, &d);
}
