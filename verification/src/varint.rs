use vstd::prelude::*;

use crate::byte_cursor::BytesIterator;
use crate::errors::Error;

verus! {

/// 128^k: the number of values a big-endian base-128 digit string of
/// length `k` can carry.
pub open spec fn pow128(k: nat) -> int
    decreases k,
{
    if k == 0 {
        1
    } else {
        128 * pow128((k - 1) as nat)
    }
}

pub proof fn lemma_pow128_pos(k: nat)
    ensures
        pow128(k) >= 1,
    decreases k,
{
    if k > 0 {
        lemma_pow128_pos((k - 1) as nat);
    }
}

pub proof fn lemma_pow128_mono(a: nat, b: nat)
    requires
        a <= b,
    ensures
        pow128(a) <= pow128(b),
    decreases b,
{
    if a < b {
        lemma_pow128_mono(a, (b - 1) as nat);
        lemma_pow128_pos((b - 1) as nat);
    }
}

pub proof fn lemma_pow128_8()
    ensures
        pow128(8) == 0x100000000000000,
        pow128(7) == 0x2000000000000,
{
    assert(pow128(0) == 1);
    assert(pow128(1) == 128);
    assert(pow128(2) == 0x4000);
    assert(pow128(3) == 0x200000);
    assert(pow128(4) == 0x10000000);
    assert(pow128(5) == 0x800000000);
    assert(pow128(6) == 0x40000000000);
    assert(pow128(7) == 0x2000000000000);
    assert(pow128(8) == 0x100000000000000);
}

/// One step-at-a-time reading of a varint from the front of `s`, with `k`
/// bytes already consumed and their payload accumulated in `acc`. The first
/// eight bytes contribute their low seven bits; a ninth byte contributes all
/// eight. The result pairs the decoded value with the total byte count.
pub open spec fn dec_rec(s: Seq<u8>, acc: int, k: int) -> Result<(int, int), Error>
    decreases 9 - k,
{
    if s.len() == 0 {
        Err(Error::Truncated)
    } else if k >= 8 {
        Ok((acc * 256 + s[0], 9))
    } else if s[0] < 128 {
        Ok((acc * 128 + s[0], k + 1))
    } else {
        dec_rec(s.skip(1), acc * 128 + (s[0] - 128), k + 1)
    }
}

/// The varint read at position `pos` of `s`: its value and its byte length.
pub open spec fn dec_varint(s: Seq<u8>, pos: int) -> Result<(int, int), Error> {
    if 0 <= pos <= s.len() {
        dec_rec(s.subrange(pos, s.len() as int), 0, 0)
    } else {
        Err(Error::Truncated)
    }
}

/// A successful read takes between one and nine bytes in all and never
/// claims more bytes than `s` holds.
pub proof fn lemma_dec_rec_len(s: Seq<u8>, acc: int, k: int)
    requires
        0 <= k <= 8,
    ensures
        dec_rec(s, acc, k) matches Ok(p) ==> k + 1 <= p.1 <= 9 && p.1 - k <= s.len(),
    decreases 9 - k,
{
    if s.len() == 0 || k >= 8 || s[0] < 128 {
    } else {
        lemma_dec_rec_len(s.skip(1), acc * 128 + (s[0] - 128), k + 1);
    }
}

/// Reading depends only on the bytes actually consumed: a sequence that
/// agrees with `s1` on that prefix reads the same way.
pub proof fn lemma_dec_rec_agree(s1: Seq<u8>, s2: Seq<u8>, acc: int, k: int)
    requires
        0 <= k <= 8,
        dec_rec(s1, acc, k) is Ok,
        s2.len() >= dec_rec(s1, acc, k)->Ok_0.1 - k,
        s2.subrange(0, dec_rec(s1, acc, k)->Ok_0.1 - k) == s1.subrange(
            0,
            dec_rec(s1, acc, k)->Ok_0.1 - k,
        ),
    ensures
        dec_rec(s2, acc, k) == dec_rec(s1, acc, k),
    decreases 9 - k,
{
    let p = dec_rec(s1, acc, k)->Ok_0;
    let m = p.1 - k;
    lemma_dec_rec_len(s1, acc, k);
    assert(1 <= m <= s1.len());
    assert(s1.subrange(0, m)[0] == s1[0]);
    assert(s2.subrange(0, m)[0] == s2[0]);
    assert(s2[0] == s1[0]);
    assert(s2.len() > 0);
    if k >= 8 {
    } else if s1[0] < 128 {
    } else {
        let acc2 = acc * 128 + (s1[0] - 128);
        assert(dec_rec(s1, acc, k) == dec_rec(s1.skip(1), acc2, k + 1));
        assert(s1.skip(1).subrange(0, m - 1) =~= s1.subrange(0, m).skip(1));
        assert(s2.skip(1).subrange(0, m - 1) =~= s2.subrange(0, m).skip(1));
        assert(s1.skip(1).subrange(0, m - 1) == s2.skip(1).subrange(0, m - 1));
        lemma_dec_rec_agree(s1.skip(1), s2.skip(1), acc2, k + 1);
        assert(dec_rec(s2, acc, k) == dec_rec(s2.skip(1), acc2, k + 1));
    }
}

/// Decodes the varint under the cursor: up to nine bytes, big-endian, the
/// low seven bits of each of the first eight bytes and all eight bits of a
/// ninth. Returns the value and the number of bytes consumed.
#[verifier::loop_isolation(false)]
pub fn decode(cursor: &mut BytesIterator) -> (r: Result<(u64, u64), Error>)
    ensures
        final(cursor).bytes@ == old(cursor).bytes@,
        match dec_varint(old(cursor).bytes@, old(cursor).offset as int) {
            Ok(p) => {
                &&& r matches Ok(q) && q.0 == p.0 && q.1 == p.1
                &&& final(cursor).offset == old(cursor).offset + p.1
            },
            Err(e) => r == Err::<(u64, u64), Error>(e),
        },
{
    let ghost s0 = cursor.bytes@;
    let ghost o0 = cursor.offset as int;
    if cursor.offset > cursor.bytes.len() {
        return Err(Error::Truncated);
    }
    let mut acc: u64 = 0;
    let mut k: u8 = 0;
    while k < 8
        invariant
            0 <= k <= 8,
            cursor.bytes@ == s0,
            cursor.offset == o0 + k,
            o0 + k <= s0.len(),
            acc < pow128(k as nat),
            dec_rec(s0.subrange(o0, s0.len() as int), 0, 0) == dec_rec(
                s0.subrange(cursor.offset as int, s0.len() as int),
                acc as int,
                k as int,
            ),
        decreases 8 - k,
    {
        let ghost cur = s0.subrange(cursor.offset as int, s0.len() as int);
        let b = match cursor.next() {
            Some(b) => b,
            None => {
                return Err(Error::Truncated);
            },
        };
        proof {
            assert(cur[0] == b);
            assert(cur.skip(1) =~= s0.subrange(cursor.offset as int, s0.len() as int));
            lemma_pow128_mono(k as nat, 7);
            lemma_pow128_8();
            assert(pow128((k + 1) as nat) == 128 * pow128(k as nat));
        }
        if b < 128 {
            return Ok((acc * 128 + (b as u64), (k + 1) as u64));
        }
        acc = acc * 128 + ((b - 128) as u64);
        k = k + 1;
    }
    // eight continuation bytes were consumed: the ninth byte carries all eight bits
    let ghost cur = s0.subrange(cursor.offset as int, s0.len() as int);
    let b = match cursor.next() {
        Some(b) => b,
        None => {
            return Err(Error::Truncated);
        },
    };
    proof {
        assert(cur[0] == b);
        lemma_pow128_8();
    }
    Ok((acc * 256 + (b as u64), 9))
}

/// The big-endian base-128 digits of `v`, high bit set on each: the leading
/// bytes of a varint. Empty when `v` is zero.
pub open spec fn enc_hi(v: int) -> Seq<u8>
    decreases v,
{
    if v <= 0 {
        Seq::empty()
    } else {
        enc_hi(v / 128).push((128 + v % 128) as u8)
    }
}

/// Exactly `k` big-endian base-128 digits of `v`, high bit set on each,
/// leading zero digits kept.
pub open spec fn enc_hi_fix(v: int, k: nat) -> Seq<u8>
    decreases k,
{
    if k == 0 {
        Seq::empty()
    } else {
        enc_hi_fix(v / 128, (k - 1) as nat).push((128 + v % 128) as u8)
    }
}

/// The varint encoding of `v`: minimal-length base-128 digits with a final
/// low byte, or, for values of more than 56 bits, eight digit bytes
/// followed by one byte carrying the low eight bits.
pub open spec fn enc_varint(v: int) -> Seq<u8> {
    if v < 0x100000000000000 {
        enc_hi(v / 128).push((v % 128) as u8)
    } else {
        enc_hi_fix(v / 256, 8).push((v % 256) as u8)
    }
}

pub proof fn lemma_enc_hi_len(v: int, d: nat)
    requires
        0 <= v < pow128(d),
    ensures
        enc_hi(v).len() <= d,
    decreases d,
{
    if v > 0 {
        assert(d > 0);
        assert(pow128(d) == 128 * pow128((d - 1) as nat));
        assert(v / 128 < pow128((d - 1) as nat)) by (nonlinear_arith)
            requires
                v < 128 * pow128((d - 1) as nat),
                0 <= v,
        ;
        lemma_enc_hi_len(v / 128, (d - 1) as nat);
    }
}

pub proof fn lemma_enc_hi_fix_len(v: int, k: nat)
    ensures
        enc_hi_fix(v, k).len() == k,
    decreases k,
{
    if k > 0 {
        lemma_enc_hi_fix_len(v / 128, (k - 1) as nat);
    }
}

/// Reading the digit bytes of `v` folds `v` into the accumulator.
proof fn lemma_dec_enc_hi(v: int, rest: Seq<u8>, acc: int, k: int)
    requires
        0 <= v,
        0 <= acc,
        0 <= k,
        k + enc_hi(v).len() <= 8,
    ensures
        dec_rec(enc_hi(v).add(rest), acc, k) == dec_rec(
            rest,
            acc * pow128(enc_hi(v).len()) + v,
            k + enc_hi(v).len(),
        ),
    decreases v,
{
    if v <= 0 {
        assert(enc_hi(v).add(rest) =~= rest);
    } else {
        let b = (128 + v % 128) as u8;
        let m = enc_hi(v / 128).len() as int;
        assert(enc_hi(v).len() == m + 1);
        assert(k + m < 8);
        let mid = seq![b].add(rest);
        assert(enc_hi(v) =~= enc_hi(v / 128).add(seq![b]));
        assert(enc_hi(v).add(rest) =~= enc_hi(v / 128).add(mid));
        lemma_dec_enc_hi(v / 128, mid, acc, k);
        let acc2 = acc * pow128(m as nat) + v / 128;
        assert(mid.len() > 0);
        assert(mid[0] == b);
        assert(b >= 128);
        assert(dec_rec(mid, acc2, k + m) == dec_rec(mid.skip(1), acc2 * 128 + (b - 128), k + m + 1));
        assert(mid.skip(1) =~= rest);
        assert(pow128((m + 1) as nat) == 128 * pow128(m as nat));
        assert(acc2 * 128 + (b - 128) == acc * pow128((m + 1) as nat) + v) by (nonlinear_arith)
            requires
                acc2 == acc * pow128(m as nat) + v / 128,
                b == 128 + v % 128,
                v == 128 * (v / 128) + v % 128,
                pow128((m + 1) as nat) == 128 * pow128(m as nat),
        ;
    }
}

/// Reading `j` fixed digit bytes of `v` folds `v` into the accumulator.
proof fn lemma_dec_enc_hi_fix(v: int, j: nat, rest: Seq<u8>, acc: int, k: int)
    requires
        0 <= v < pow128(j),
        0 <= acc,
        0 <= k,
        k + j <= 8,
    ensures
        dec_rec(enc_hi_fix(v, j).add(rest), acc, k) == dec_rec(
            rest,
            acc * pow128(j) + v,
            k + j,
        ),
    decreases j,
{
    lemma_enc_hi_fix_len(v, j);
    if j == 0 {
        assert(enc_hi_fix(v, j).add(rest) =~= rest);
    } else {
        let b = (128 + v % 128) as u8;
        let m = (j - 1) as nat;
        lemma_enc_hi_fix_len(v / 128, m);
        assert(pow128(j) == 128 * pow128(m));
        assert(v / 128 < pow128(m)) by (nonlinear_arith)
            requires
                v < 128 * pow128(m),
                0 <= v,
        ;
        let mid = seq![b].add(rest);
        assert(enc_hi_fix(v, j) =~= enc_hi_fix(v / 128, m).add(seq![b]));
        assert(enc_hi_fix(v, j).add(rest) =~= enc_hi_fix(v / 128, m).add(mid));
        lemma_dec_enc_hi_fix(v / 128, m, mid, acc, k);
        let acc2 = acc * pow128(m) + v / 128;
        assert(mid[0] == b);
        assert(k + m < 8);
        assert(dec_rec(mid, acc2, k + m) == dec_rec(mid.skip(1), acc2 * 128 + (b - 128), k + m + 1));
        assert(mid.skip(1) =~= rest);
        assert(acc2 * 128 + (b - 128) == acc * pow128(j) + v) by (nonlinear_arith)
            requires
                acc2 == acc * pow128(m) + v / 128,
                b == 128 + v % 128,
                v == 128 * (v / 128) + v % 128,
                pow128(j) == 128 * pow128(m),
        ;
    }
}

/// Encoding any 64-bit value and decoding the result gives the value back,
/// and the decoder consumes exactly the encoded length.
pub proof fn lemma_varint_round_trip(v: u64)
    ensures
        dec_varint(enc_varint(v as int), 0) == Ok::<(int, int), Error>(
            (v as int, enc_varint(v as int).len() as int),
        ),
        1 <= enc_varint(v as int).len() <= 9,
{
    let vi = v as int;
    lemma_pow128_8();
    let s = enc_varint(vi);
    assert(s.subrange(0, s.len() as int) =~= s);
    if vi < 0x100000000000000 {
        let hi = enc_hi(vi / 128);
        let tail = seq![(vi % 128) as u8];
        assert(s =~= hi.add(tail));
        assert(vi / 128 < pow128(7)) by (nonlinear_arith)
            requires
                vi < 128 * pow128(7),
                0 <= vi,
                pow128(8) == 128 * pow128(7),
                vi < pow128(8),
        ;
        lemma_enc_hi_len(vi / 128, 7);
        lemma_dec_enc_hi(vi / 128, tail, 0, 0);
        let m = hi.len() as int;
        assert(dec_rec(tail, vi / 128, m) == Ok::<(int, int), Error>(
            ((vi / 128) * 128 + vi % 128, m + 1),
        ));
        assert((vi / 128) * 128 + vi % 128 == vi);
        assert(s.len() == m + 1);
    } else {
        let hi = enc_hi_fix(vi / 256, 8);
        let tail = seq![(vi % 256) as u8];
        lemma_enc_hi_fix_len(vi / 256, 8);
        assert(s =~= hi.add(tail));
        assert(vi / 256 < pow128(8)) by (nonlinear_arith)
            requires
                vi < 256 * pow128(8),
                0 <= vi,
        ;
        lemma_dec_enc_hi_fix(vi / 256, 8, tail, 0, 0);
        assert(dec_rec(tail, vi / 256, 8) == Ok::<(int, int), Error>(
            ((vi / 256) * 256 + vi % 256, 9),
        ));
        assert((vi / 256) * 256 + vi % 256 == vi);
        assert(s.len() == 9);
    }
}

fn encode_hi(v: u64) -> (r: Vec<u8>)
    ensures
        r@ == enc_hi(v as int),
    decreases v,
{
    if v == 0 {
        Vec::new()
    } else {
        let mut r = encode_hi(v / 128);
        r.push((128 + (v % 128)) as u8);
        r
    }
}

fn encode_hi_fix(v: u64, k: u8) -> (r: Vec<u8>)
    ensures
        r@ == enc_hi_fix(v as int, k as nat),
    decreases k,
{
    if k == 0 {
        Vec::new()
    } else {
        let mut r = encode_hi_fix(v / 128, k - 1);
        r.push((128 + (v % 128)) as u8);
        r
    }
}

/// Encodes `value` as a varint, the inverse of `decode`.
pub fn encode(value: u64) -> (r: Vec<u8>)
    ensures
        r@ == enc_varint(value as int),
{
    if value < 0x100000000000000 {
        let mut r = encode_hi(value / 128);
        r.push((value % 128) as u8);
        r
    } else {
        let mut r = encode_hi_fix(value / 256, 8);
        r.push((value % 256) as u8);
        r
    }
}

} // verus!
