use vstd::prelude::*;

use crate::CodecError;

verus! {

/// `128` raised to the power `n`.
pub open spec fn pow128(n: nat) -> nat
    decreases n,
{
    if n == 0 {
        1
    } else {
        128 * pow128((n - 1) as nat)
    }
}

/// The number that a string of base-128 digits stands for, least significant
/// digit first; each byte contributes its low seven bits.
pub open spec fn digits_value(s: Seq<u8>) -> nat
    decreases s.len(),
{
    if s.len() == 0 {
        0
    } else {
        digits_value(s.drop_last()) + (s.last() % 128) as nat * pow128((s.len() - 1) as nat)
    }
}

/// The varint encoding of `x`: seven bits per byte, least significant group
/// first, with the high bit set on every byte but the last.
pub open spec fn varint_encoding(x: nat) -> Seq<u8>
    decreases x,
{
    if x < 128 {
        seq![x as u8]
    } else {
        seq![(x % 128 + 128) as u8] + varint_encoding(x / 128)
    }
}

/// What decoding a varint at the start of `s` gives, scanning from byte `i`
/// on: `(value, consumed)` with `consumed > 0` on success, `(0, 0)` when the
/// bytes end before the varint does, `(0, -1)` on overflow (a tenth byte
/// above one, or more than nine continuation bytes).
pub open spec fn uvarint_scan(s: Seq<u8>, i: nat) -> (u64, int)
    decreases 10 - i,
{
    if i >= 10 {
        (0, -1)
    } else if i >= s.len() {
        (0, 0)
    } else if i == 9 && s[9] > 1 {
        (0, -1)
    } else if s[i as int] < 128 {
        (digits_value(s.take(i + 1 as int)) as u64, i + 1 as int)
    } else {
        uvarint_scan(s, i + 1)
    }
}

/// Decoding of a varint at the start of `s`.
#[verifier::opaque]
pub open spec fn uvarint_decode(s: Seq<u8>) -> (u64, int) {
    uvarint_scan(s, 0)
}

/// Writes the varint encoding of `x` to the start of `buf` and returns the
/// number of bytes written (1 to 10).
pub fn put_uvarint(buf: &mut [u8], x: u64) -> (n: usize)
    requires
        old(buf)@.len() >= varint_encoding(x as nat).len(),
    ensures
        n == varint_encoding(x as nat).len(),
        1 <= n <= 10,
        final(buf)@.len() == old(buf)@.len(),
        final(buf)@.take(n as int) == varint_encoding(x as nat),
        final(buf)@.skip(n as int) == old(buf)@.skip(n as int),
{
    let mut v: u64 = x;
    let mut i: usize = 0;
    proof {
        lemma_encoding_len(x as nat);
    }
    while v >= 0x80
        invariant
            varint_encoding(x as nat) == buf@.take(i as int) + varint_encoding(v as nat),
            i + varint_encoding(v as nat).len() == varint_encoding(x as nat).len(),
            varint_encoding(x as nat).len() <= buf@.len(),
            buf@.len() == old(buf)@.len(),
            buf@.skip(varint_encoding(x as nat).len() as int) == old(buf)@.skip(
                varint_encoding(x as nat).len() as int,
            ),
        decreases v,
    {
        let ghost pre = buf@;
        buf[i] = (v % 128 + 128) as u8;
        proof {
            assert(buf@.take(i + 1) == pre.take(i as int).push((v % 128 + 128) as u8));
            assert(varint_encoding(v as nat) == seq![(v % 128 + 128) as u8] + varint_encoding(
                (v / 128) as nat,
            ));
            assert(buf@.skip(varint_encoding(x as nat).len() as int) =~= pre.skip(
                varint_encoding(x as nat).len() as int,
            ));
            assert(varint_encoding(x as nat) =~= buf@.take(i + 1) + varint_encoding(
                (v / 128) as nat,
            ));
        }
        v = v / 128;
        i = i + 1;
    }
    let ghost pre = buf@;
    buf[i] = v as u8;
    proof {
        assert(varint_encoding(v as nat) == seq![v as u8]);
        assert(buf@.take(i + 1) =~= varint_encoding(x as nat));
        assert(buf@.skip(i + 1) =~= pre.skip(i + 1));
    }
    i + 1
}

/// The encoding of `x` is at least one byte long, and at most ten for a
/// 64-bit `x`.
pub proof fn lemma_encoding_len(x: nat)
    ensures
        1 <= varint_encoding(x).len(),
        x < 0x1_0000_0000_0000_0000 ==> varint_encoding(x).len() <= 10,
{
    lemma_encoding_len_below(x, 10);
    reveal_with_fuel(pow128, 11);
    assert(pow128(10) == 0x40_0000_0000_0000_0000);
}

proof fn lemma_encoding_len_below(x: nat, k: nat)
    ensures
        1 <= varint_encoding(x).len(),
        k >= 1 && x < pow128(k) ==> varint_encoding(x).len() <= k,
    decreases x,
{
    if x >= 128 {
        lemma_encoding_len_below(x / 128, (k - 1) as nat);
        if k >= 1 && x < pow128(k) {
            if k == 1 {
                reveal_with_fuel(pow128, 2);
            } else {
                assert(x / 128 < pow128((k - 1) as nat));
            }
        }
    }
}

/// Decodes a varint at the start of `buf`. Returns `(value, consumed)` on
/// success, `(0, 0)` when `buf` ends first and `(0, -1)` on overflow.
pub fn uvarint(buf: &[u8]) -> (r: (u64, isize))
    ensures
        r.0 == uvarint_decode(buf@).0,
        r.1 as int == uvarint_decode(buf@).1,
{
    let mut x: u64 = 0;
    let mut mult: u64 = 1;
    let mut i: usize = 0;
    proof {
        reveal(uvarint_decode);
        lemma_pow128_bounds();
        assert(buf@.take(0) =~= Seq::<u8>::empty());
    }
    while i < buf.len()
        invariant
            i <= 9,
            x == digits_value(buf@.take(i as int)),
            mult == pow128(i as nat),
            x < mult,
            mult <= 0x8000_0000_0000_0000,
            i <= 8 ==> mult <= 0x100_0000_0000_0000,
            uvarint_scan(buf@, i as nat) == uvarint_decode(buf@),
        decreases buf.len() - i,
    {
        let b = buf[i];
        proof {
            let t = buf@.take(i + 1);
            assert(t.drop_last() =~= buf@.take(i as int));
            assert(digits_value(t) == x + (b % 128) as nat * mult);
        }
        if i == 9 && b > 1 {
            return (0, -1);
        }
        if b < 128 {
            assert(x + b * mult <= 128 * mult - 1) by (nonlinear_arith)
                requires
                    x < mult,
                    b < 128,
            ;
            assert(i == 9 ==> x + b * mult <= 2 * mult - 1) by (nonlinear_arith)
                requires
                    x < mult,
                    i == 9 ==> b <= 1,
            ;
            return (x + b as u64 * mult, (i + 1) as isize);
        }
        assert(x + (b % 128) * mult < 128 * mult) by (nonlinear_arith)
            requires
                x < mult,
                b % 128 < 128,
        ;
        x = x + (b % 128) as u64 * mult;
        proof {
            reveal_with_fuel(pow128, 2);
            lemma_pow128_bounds();
            assert(pow128((i + 1) as nat) == 128 * pow128(i as nat));
        }
        mult = mult * 128;
        i = i + 1;
    }
    (0, 0)
}

/// Reads a varint from `buf` at `*pos`, one byte at a time, and moves `*pos`
/// past it. A varint that runs past the end of `buf`, or overflows 64 bits,
/// is `Malformed` and leaves `*pos` where it was.
pub fn read_uvarint(buf: &[u8], pos: &mut usize) -> (r: Result<u64, CodecError>)
    requires
        *old(pos) <= buf@.len(),
    ensures
        ({
            let d = uvarint_decode(buf@.skip(*old(pos) as int));
            match r {
                Ok(v) => d.1 > 0 && v == d.0 && *final(pos) == *old(pos) + d.1,
                Err(e) => d.1 <= 0 && e == CodecError::Malformed && *final(pos) == *old(pos),
            }
        }),
{
    let (v, n) = uvarint(&buf[*pos..buf.len()]);
    proof {
        assert(buf@.subrange(*pos as int, buf@.len() as int) =~= buf@.skip(*pos as int));
    }
    if n <= 0 {
        return Err(CodecError::Malformed);
    }
    proof {
        reveal(uvarint_decode);
        lemma_decode_within(buf@.skip(*pos as int));
    }
    *pos = *pos + n as usize;
    Ok(v)
}

/// A successful decode consumes between one and ten bytes of its input.
pub proof fn lemma_decode_within(s: Seq<u8>)
    ensures
        uvarint_decode(s).1 > 0 ==> 0 < uvarint_decode(s).1 <= s.len() && uvarint_decode(s).1 <= 10,
{
    reveal(uvarint_decode);
    lemma_scan_within(s, 0);
}

proof fn lemma_scan_within(s: Seq<u8>, i: nat)
    ensures
        uvarint_scan(s, i).1 > 0 ==> i < uvarint_scan(s, i).1 <= s.len() && uvarint_scan(s, i).1
            <= 10,
    decreases 10 - i,
{
    if i < 10 && i < s.len() && !(i == 9 && s[9] > 1) && s[i as int] >= 128 {
        lemma_scan_within(s, i + 1);
    }
}

/// Appends the varint encoding of `x` to `out`.
pub fn append_uvarint(out: &mut Vec<u8>, x: u64)
    ensures
        final(out)@ == old(out)@ + varint_encoding(x as nat),
{
    let mut scratch = [0u8; 10];
    proof {
        lemma_encoding_len(x as nat);
    }
    let n = put_uvarint(&mut scratch, x);
    let mut i: usize = 0;
    while i < n
        invariant
            n <= 10,
            scratch@.len() == 10,
            scratch@.take(n as int) == varint_encoding(x as nat),
            i <= n,
            out@ == old(out)@ + scratch@.take(i as int),
        decreases n - i,
    {
        out.push(scratch[i]);
        proof {
            assert(scratch@.take(i + 1) =~= scratch@.take(i as int).push(scratch@[i as int]));
        }
        i = i + 1;
    }
}

/// Decoding what `put_uvarint` writes gives back the value and consumes
/// exactly the bytes written, whatever follows them.
pub proof fn lemma_varint_round_trip(x: u64, rest: Seq<u8>)
    ensures
        uvarint_decode(varint_encoding(x as nat) + rest) == (x, varint_encoding(x as nat).len() as int),
{
    reveal(uvarint_decode);
    let e = varint_encoding(x as nat);
    let s = e + rest;
    lemma_encoding_shape(x as nat, 9);
    lemma_pow128_bounds();
    lemma_digits_of_encoding(x as nat);
    assert(s.take(e.len() as int) =~= e);
    lemma_scan_encoding(x, rest, 0);
}

proof fn lemma_scan_encoding(x: u64, rest: Seq<u8>, i: nat)
    requires
        i < varint_encoding(x as nat).len(),
        varint_encoding(x as nat).len() <= 10,
        varint_encoding(x as nat).len() == 10 ==> varint_encoding(x as nat).last() <= 1,
        forall|j: int|
            0 <= j < varint_encoding(x as nat).len() - 1 ==> varint_encoding(x as nat)[j] >= 128,
        varint_encoding(x as nat).last() < 128,
        digits_value(varint_encoding(x as nat)) == x,
    ensures
        uvarint_scan(varint_encoding(x as nat) + rest, i) == (
            x,
            varint_encoding(x as nat).len() as int,
        ),
    decreases 10 - i,
{
    let e = varint_encoding(x as nat);
    let s = e + rest;
    assert(s[i as int] == e[i as int]);
    if i + 1 < e.len() {
        lemma_scan_encoding(x, rest, i + 1);
    } else {
        assert(s.take(i + 1 as int) =~= e);
    }
}

/// Every byte of an encoding but the last has its high bit set; for `x`
/// below `2 * 128^k` the encoding has at most `k + 1` bytes, and when it has
/// exactly `k + 1` the last byte is at most one.
proof fn lemma_encoding_shape(x: nat, k: nat)
    ensures
        varint_encoding(x).len() >= 1,
        varint_encoding(x).last() < 128,
        forall|j: int| 0 <= j < varint_encoding(x).len() - 1 ==> varint_encoding(x)[j] >= 128,
        x < 2 * pow128(k) ==> varint_encoding(x).len() <= k + 1,
        x < 2 * pow128(k) && varint_encoding(x).len() == k + 1 ==> varint_encoding(x).last() <= 1,
    decreases x,
{
    if x >= 128 {
        let t = varint_encoding(x / 128);
        let e = varint_encoding(x);
        if k >= 1 {
            lemma_encoding_shape(x / 128, (k - 1) as nat);
            if x < 2 * pow128(k) {
                assert(x / 128 < 2 * pow128((k - 1) as nat));
            }
        } else {
            lemma_encoding_shape(x / 128, 0);
        }
        assert(e == seq![(x % 128 + 128) as u8] + t);
        assert(e.last() == t.last());
        assert forall|j: int| 0 <= j < e.len() - 1 implies e[j] >= 128 by {
            if j > 0 {
                assert(e[j] == t[j - 1]);
            }
        }
    }
}

/// The digits of the encoding of `x` add up to `x`.
proof fn lemma_digits_of_encoding(x: nat)
    ensures
        digits_value(varint_encoding(x)) == x,
    decreases x,
{
    if x < 128 {
        assert(seq![x as u8].drop_last() =~= Seq::<u8>::empty());
        assert(digits_value(Seq::<u8>::empty()) == 0);
        assert(pow128(0) == 1);
        let e = seq![x as u8];
        assert(e.len() == 1);
        assert(e.last() == x as u8);
        assert(digits_value(e) == digits_value(e.drop_last()) + (e.last() % 128) as nat * pow128(0));
        assert(digits_value(e) == x);
    } else {
        assert(x % 128 + 128 < 256);
        assert(((x % 128 + 128) as u8) % 128 == x % 128);
        assert(varint_encoding(x) == seq![(x % 128 + 128) as u8] + varint_encoding(x / 128));
        lemma_digits_of_encoding(x / 128);
        lemma_digits_cons((x % 128 + 128) as u8, varint_encoding(x / 128));
    }
}

/// Putting a digit in front multiplies the rest by 128.
proof fn lemma_digits_cons(b: u8, t: Seq<u8>)
    ensures
        digits_value(seq![b] + t) == (b % 128) as nat + 128 * digits_value(t),
    decreases t.len(),
{
    let s = seq![b] + t;
    if t.len() == 0 {
        assert(s.drop_last() =~= Seq::<u8>::empty());
        assert(s =~= seq![b]);
        assert(digits_value(Seq::<u8>::empty()) == 0);
        assert(pow128(0) == 1);
        assert(digits_value(t) == 0);
    } else {
        lemma_digits_cons(b, t.drop_last());
        assert(s.drop_last() =~= seq![b] + t.drop_last());
        assert(s.last() == t.last());
        let p = pow128((t.len() - 1) as nat);
        assert(pow128(t.len() as nat) == 128 * p);
        assert(digits_value(s) == digits_value(seq![b] + t.drop_last()) + (t.last() % 128) as nat
            * pow128(t.len() as nat));
        assert(digits_value(t) == digits_value(t.drop_last()) + (t.last() % 128) as nat * p);
        let l = (t.last() % 128) as nat;
        let a = digits_value(t.drop_last());
        assert(l * (128 * p) + 128 * a == 128 * (a + l * p)) by (nonlinear_arith);
    }
}

proof fn lemma_pow128_bounds()
    ensures
        pow128(8) == 0x100_0000_0000_0000,
        pow128(9) == 0x8000_0000_0000_0000,
        forall|k: nat| k <= 8 ==> #[trigger] pow128(k) <= 0x100_0000_0000_0000,
{
    reveal_with_fuel(pow128, 10);
    assert forall|k: nat| k <= 8 implies #[trigger] pow128(k) <= 0x100_0000_0000_0000 by {
        reveal_with_fuel(pow128, 10);
    }
}

} // verus!
