use dssc::varint::{put_uvarint, read_uvarint, uvarint};
use dssc::CodecError;

#[test]
pub fn varint_test() {
    let mut buf = [0; 9];
    let val = 10000;
    println!("{}", put_uvarint(&mut buf, val));
    let (after, size) = uvarint(&buf);
    println!("{} {}", after, size);
    assert_eq!(val, after);
}

fn encoded(x: u64) -> Vec<u8> {
    let mut buf = [0u8; 10];
    let n = put_uvarint(&mut buf, x);
    buf[..n].to_vec()
}

#[test]
fn varint_boundaries() {
    assert_eq!(encoded(127), vec![0x7F]);
    assert_eq!(encoded(128), vec![0x80, 0x01]);
    assert_eq!(encoded(16384), vec![0x80, 0x80, 0x01]);
    assert_eq!(encoded(0), vec![0x00]);
    assert_eq!(encoded(300), vec![0xAC, 0x02]);
}

#[test]
fn varint_largest_value_takes_ten_bytes() {
    let e = encoded(u64::MAX);
    assert_eq!(e.len(), 10);
    assert_eq!(e[9], 0x01);
    assert_eq!(uvarint(&e), (u64::MAX, 10));
}

#[test]
fn varint_round_trip_values() {
    for &x in &[0u64, 1, 127, 128, 255, 16383, 16384, 1 << 35, (1 << 63) - 1, 1 << 63, u64::MAX] {
        let mut e = encoded(x);
        let n = e.len() as isize;
        e.extend_from_slice(&[0x80, 0x07]);
        assert_eq!(uvarint(&e), (x, n));
    }
}

#[test]
fn varint_truncated_and_overflow() {
    assert_eq!(uvarint(&[]), (0, 0));
    assert_eq!(uvarint(&[0x80, 0x80]), (0, 0));
    let mut ten = vec![0xFF; 9];
    ten.push(0x02);
    assert_eq!(uvarint(&ten), (0, -1));
    assert_eq!(uvarint(&[0xFF; 11]), (0, -1));
}

#[test]
fn read_uvarint_moves_past_the_value() {
    let buf = [0x05, 0xAC, 0x02, 0x80];
    let mut pos = 0;
    assert_eq!(read_uvarint(&buf, &mut pos), Ok(5));
    assert_eq!(pos, 1);
    assert_eq!(read_uvarint(&buf, &mut pos), Ok(300));
    assert_eq!(pos, 3);
    assert_eq!(read_uvarint(&buf, &mut pos), Err(CodecError::Malformed));
    assert_eq!(pos, 3);
}
