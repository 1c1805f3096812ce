use vstd::prelude::*;

verus! {

// ---------------------------------------------------------------------------
// Decimal text for signed 64-bit integers
// ---------------------------------------------------------------------------

/// The decimal digits of a non-negative `n`, most significant first.
pub open spec fn dec_digits(n: int) -> Seq<u8>
    decreases n,
{
    if n < 10 {
        seq![(48 + n) as u8]
    } else {
        dec_digits(n / 10).push((48 + n % 10) as u8)
    }
}

/// The decimal text of `v`, with a leading minus sign when negative.
pub open spec fn int_text(v: int) -> Seq<u8> {
    if v < 0 {
        seq![45u8].add(dec_digits(-v))
    } else {
        dec_digits(v)
    }
}

fn u64_text(n: u64) -> (r: Vec<u8>)
    ensures
        r@ == dec_digits(n as int),
    decreases n,
{
    if n < 10 {
        let mut r: Vec<u8> = Vec::new();
        r.push(48 + (n as u8));
        r
    } else {
        let mut r = u64_text(n / 10);
        r.push(48 + ((n % 10) as u8));
        r
    }
}

/// Renders `v` as decimal text.
pub fn i64_text(v: i64) -> (r: Vec<u8>)
    ensures
        r@ == int_text(v as int),
{
    if v >= 0 {
        u64_text(v as u64)
    } else {
        let mag: u64 = if v == i64::MIN {
            0x8000000000000000u64
        } else {
            (-v) as u64
        };
        let mut r: Vec<u8> = Vec::new();
        r.push(45);
        let mut d = u64_text(mag);
        r.append(&mut d);
        r
    }
}

// ---------------------------------------------------------------------------
// Parsing decimal text
// ---------------------------------------------------------------------------

pub open spec fn is_digit(b: u8) -> bool {
    48 <= b <= 57
}

pub open spec fn all_digits(s: Seq<u8>) -> bool {
    forall|i: int| 0 <= i < s.len() ==> is_digit(s[i])
}

/// The value of a digit string, most significant digit first.
pub open spec fn digits_val(s: Seq<u8>) -> int
    decreases s.len(),
{
    if s.len() == 0 {
        0
    } else {
        digits_val(s.drop_last()) * 10 + (s.last() - 48)
    }
}

/// The integer denoted by `s`: an optional minus sign followed by at least
/// one digit, and nothing else.
pub open spec fn parse_int(s: Seq<u8>) -> Option<int> {
    if s.len() > 0 && s[0] == 45 {
        if s.len() > 1 && all_digits(s.skip(1)) {
            Some(-digits_val(s.skip(1)))
        } else {
            None
        }
    } else if s.len() > 0 && all_digits(s) {
        Some(digits_val(s))
    } else {
        None
    }
}

/// `parse_int` restricted to values representable as `i64`.
pub open spec fn parse_i64(s: Seq<u8>) -> Option<int> {
    match parse_int(s) {
        Some(v) => if i64::MIN <= v <= i64::MAX {
            Some(v)
        } else {
            None
        },
        None => None,
    }
}

/// The unsigned 32-bit integer denoted by `s`: one or more digits and
/// nothing else, no sign.
pub open spec fn parse_u32(s: Seq<u8>) -> Option<int> {
    if s.len() > 0 && all_digits(s) && digits_val(s) <= u32::MAX {
        Some(digits_val(s))
    } else {
        None
    }
}

proof fn lemma_digits_val_nonneg(s: Seq<u8>)
    requires
        all_digits(s),
    ensures
        digits_val(s) >= 0,
    decreases s.len(),
{
    if s.len() > 0 {
        assert(all_digits(s.drop_last()));
        lemma_digits_val_nonneg(s.drop_last());
    }
}

/// Appending digits never shrinks the value.
proof fn lemma_digits_val_mono(s: Seq<u8>, i: int)
    requires
        all_digits(s),
        0 <= i <= s.len(),
    ensures
        digits_val(s) >= digits_val(s.take(i)),
    decreases s.len() - i,
{
    if i < s.len() {
        assert(all_digits(s.take(i + 1)));
        assert(s.take(i + 1).drop_last() =~= s.take(i));
        assert(all_digits(s.take(i)));
        lemma_digits_val_nonneg(s.take(i));
        lemma_digits_val_mono(s, i + 1);
    } else {
        assert(s.take(i) =~= s);
    }
}

/// Parses the digit run `s[from..]` as a non-negative integer bounded by
/// `limit`. `None` when a non-digit occurs, nothing follows `from`, or the
/// value exceeds `limit`.
#[verifier::loop_isolation(false)]
fn parse_mag(s: &[u8], from: usize, limit: u64) -> (r: Option<u64>)
    requires
        from <= s@.len(),
    ensures
        ({
            let d = s@.skip(from as int);
            match r {
                Some(v) => d.len() > 0 && all_digits(d) && v == digits_val(d) && v <= limit,
                None => !(d.len() > 0 && all_digits(d) && 0 <= digits_val(d) <= limit),
            }
        }),
{
    let ghost d = s@.skip(from as int);
    let len = s.len();
    if from >= len {
        return None;
    }
    let mut acc: u64 = 0;
    let mut i: usize = from;
    while i < len
        invariant
            from <= i <= len,
            len == s@.len(),
            d == s@.skip(from as int),
            all_digits(d.take(i - from)),
            acc == digits_val(d.take(i - from)),
            acc <= limit,
        decreases len - i,
    {
        let b = s[i];
        proof {
            assert(d[i - from] == s@[i as int]);
            assert(d.take(i - from + 1).drop_last() =~= d.take(i - from));
            assert(d.take(i - from + 1).last() == d[i - from]);
        }
        if b < 48 || b > 57 {
            proof {
                assert(!is_digit(d[i - from]));
            }
            return None;
        }
        let dig = (b - 48) as u64;
        if acc > limit / 10 || (acc == limit / 10 && dig > limit % 10) {
            proof {
                assert(digits_val(d.take(i - from + 1)) == acc * 10 + dig);
                assert(acc * 10 + dig > limit);
                if all_digits(d) {
                    lemma_digits_val_mono(d, i - from + 1);
                }
            }
            return None;
        }
        acc = acc * 10 + dig;
        i = i + 1;
    }
    proof {
        assert(d.take(i - from) =~= d);
    }
    Some(acc)
}

/// Parses `s` as a signed 64-bit decimal integer.
pub fn parse_i64_bytes(s: &[u8]) -> (r: Option<i64>)
    ensures
        match parse_i64(s@) {
            Some(v) => r matches Some(x) && x == v,
            None => r is None,
        },
{
    if s.len() > 0 && s[0] == 45 {
        match parse_mag(s, 1, 0x8000000000000000u64) {
            Some(mag) => {
                if mag == 0x8000000000000000u64 {
                    Some(i64::MIN)
                } else {
                    Some(-(mag as i64))
                }
            },
            None => {
                proof {
                    let d = s@.skip(1);
                    if d.len() > 0 && all_digits(d) {
                        lemma_digits_val_nonneg(d);
                    }
                }
                None
            },
        }
    } else {
        match parse_mag(s, 0, 0x7FFFFFFFFFFFFFFFu64) {
            Some(v) => {
                proof {
                    assert(s@.skip(0) =~= s@);
                }
                Some(v as i64)
            },
            None => {
                proof {
                    assert(s@.skip(0) =~= s@);
                    if s@.len() > 0 && all_digits(s@) {
                        lemma_digits_val_nonneg(s@);
                    }
                }
                None
            },
        }
    }
}

/// Parses `s` as an unsigned 32-bit decimal integer.
pub fn parse_u32_bytes(s: &[u8]) -> (r: Option<u32>)
    ensures
        match parse_u32(s@) {
            Some(v) => r matches Some(x) && x == v,
            None => r is None,
        },
{
    match parse_mag(s, 0, 0xFFFFFFFFu64) {
        Some(v) => {
            proof {
                assert(s@.skip(0) =~= s@);
            }
            Some(v as u32)
        },
        None => {
            proof {
                assert(s@.skip(0) =~= s@);
                if s@.len() > 0 && all_digits(s@) {
                    lemma_digits_val_nonneg(s@);
                }
            }
            None
        },
    }
}

// ---------------------------------------------------------------------------
// Big-endian integer fields
// ---------------------------------------------------------------------------

/// 256^k.
pub open spec fn pow256(k: nat) -> int
    decreases k,
{
    if k == 0 {
        1
    } else {
        256 * pow256((k - 1) as nat)
    }
}

pub proof fn lemma_pow256_pos(k: nat)
    ensures
        pow256(k) >= 1,
    decreases k,
{
    if k > 0 {
        lemma_pow256_pos((k - 1) as nat);
    }
}

pub proof fn lemma_pow256_vals()
    ensures
        pow256(1) == 0x100,
        pow256(2) == 0x10000,
        pow256(3) == 0x1000000,
        pow256(4) == 0x100000000,
        pow256(5) == 0x10000000000,
        pow256(6) == 0x1000000000000,
        pow256(7) == 0x100000000000000,
        pow256(8) == 0x10000000000000000,
{
    assert(pow256(0) == 1);
    assert(pow256(1) == 0x100);
    assert(pow256(2) == 0x10000);
    assert(pow256(3) == 0x1000000);
    assert(pow256(4) == 0x100000000);
    assert(pow256(5) == 0x10000000000);
    assert(pow256(6) == 0x1000000000000);
    assert(pow256(7) == 0x100000000000000);
    assert(pow256(8) == 0x10000000000000000);
}

/// The big-endian unsigned value of `s`.
pub open spec fn be_uint(s: Seq<u8>) -> int
    decreases s.len(),
{
    if s.len() == 0 {
        0
    } else {
        be_uint(s.drop_last()) * 256 + s.last()
    }
}

/// The big-endian two's-complement value of `s`: negative when the top bit
/// of the first byte is set.
pub open spec fn be_sint(s: Seq<u8>) -> int {
    if s.len() == 0 {
        0
    } else if s[0] >= 128 {
        be_uint(s) - pow256(s.len())
    } else {
        be_uint(s)
    }
}

pub proof fn lemma_be_uint_bounds(s: Seq<u8>)
    ensures
        0 <= be_uint(s) < pow256(s.len()),
    decreases s.len(),
{
    if s.len() > 0 {
        lemma_be_uint_bounds(s.drop_last());
        assert(pow256(s.len()) == 256 * pow256((s.len() - 1) as nat));
        assert(be_uint(s.drop_last()) * 256 + s.last() < pow256(s.len())) by (nonlinear_arith)
            requires
                be_uint(s.drop_last()) < pow256((s.len() - 1) as nat),
                0 <= be_uint(s.drop_last()),
                s.last() < 256,
                pow256(s.len()) == 256 * pow256((s.len() - 1) as nat),
        ;
    }
}

/// The first byte contributes its value at the highest position.
pub proof fn lemma_be_uint_front(s: Seq<u8>)
    requires
        s.len() > 0,
    ensures
        be_uint(s) == s[0] * pow256((s.len() - 1) as nat) + be_uint(s.skip(1)),
    decreases s.len(),
{
    if s.len() == 1 {
        assert(s.drop_last().len() == 0);
        assert(s.skip(1).len() == 0);
        assert(s.last() == s[0]);
        assert(be_uint(s.drop_last()) == 0);
        assert(be_uint(s.skip(1)) == 0);
        assert(pow256(0) == 1);
        assert(be_uint(s) == s[0] * pow256((s.len() - 1) as nat) + be_uint(s.skip(1)));
    } else {
        lemma_be_uint_front(s.drop_last());
        assert(s.drop_last().skip(1) =~= s.skip(1).drop_last());
        assert(s.skip(1).last() == s.last());
        assert(s.drop_last()[0] == s[0]);
        let n = (s.len() - 2) as nat;
        let a = s[0] as int;
        let c = be_uint(s.skip(1).drop_last());
        let d = s.last() as int;
        assert(pow256((s.len() - 1) as nat) == 256 * pow256(n));
        assert(be_uint(s.drop_last()) == a * pow256(n) + c);
        assert(be_uint(s) == be_uint(s.drop_last()) * 256 + d);
        assert(be_uint(s.skip(1)) == c * 256 + d);
        assert((a * pow256(n) + c) * 256 + d == a * (256 * pow256(n)) + (c * 256 + d))
            by (nonlinear_arith);
        assert(a * (256 * pow256(n)) == a * pow256((s.len() - 1) as nat)) by (nonlinear_arith)
            requires
                pow256((s.len() - 1) as nat) == 256 * pow256(n),
        ;
        assert(be_uint(s) == s[0] * pow256((s.len() - 1) as nat) + be_uint(s.skip(1)));
    }
}

/// Folds the bytes of `row` into their big-endian unsigned value.
#[verifier::loop_isolation(false)]
pub fn row_u64_converter(row: &[u8]) -> (r: u64)
    requires
        row@.len() <= 8,
    ensures
        r == be_uint(row@),
{
    let len = row.len();
    let mut acc: u64 = 0;
    let mut i: usize = 0;
    proof {
        lemma_pow256_vals();
    }
    while i < len
        invariant
            i <= len,
            acc == be_uint(row@.take(i as int)),
            acc < pow256(i as nat),
        decreases len - i,
    {
        proof {
            lemma_be_uint_bounds(row@.take(i as int));
            assert(pow256((i + 1) as nat) == 256 * pow256(i as nat));
            assert(acc * 256 + row@[i as int] < pow256((i + 1) as nat)) by (nonlinear_arith)
                requires
                    acc < pow256(i as nat),
                    row@[i as int] < 256,
                    pow256((i + 1) as nat) == 256 * pow256(i as nat),
            ;
            assert(pow256((i + 1) as nat) <= pow256(8)) by {
                lemma_pow256_mono((i + 1) as nat, 8);
            }
            assert(row@.take(i + 1).drop_last() =~= row@.take(i as int));
            assert(row@.take(i + 1).last() == row@[i as int]);
        }
        acc = acc * 256 + (row[i] as u64);
        i = i + 1;
    }
    proof {
        assert(row@.take(len as int) =~= row@);
    }
    acc
}

pub proof fn lemma_pow256_mono(a: nat, b: nat)
    requires
        a <= b,
    ensures
        pow256(a) <= pow256(b),
    decreases b,
{
    if a < b {
        lemma_pow256_mono(a, (b - 1) as nat);
        lemma_pow256_pos((b - 1) as nat);
    }
}

/// The big-endian signed value of an integer field of one to eight bytes,
/// sign-extended from the top bit of its first byte.
pub fn int_field_value(row: &[u8]) -> (r: i64)
    requires
        row@.len() <= 8,
    ensures
        r as int == be_sint(row@),
{
    let len = row.len();
    let u = row_u64_converter(row);
    if len == 0 {
        return 0;
    }
    proof {
        lemma_pow256_vals();
        lemma_be_uint_bounds(row@);
        lemma_be_uint_front(row@);
        lemma_be_uint_bounds(row@.skip(1));
        lemma_pow256_mono((len - 1) as nat, 7);
        lemma_pow256_mono(len as nat, 8);
        assert(row@[0] * pow256((len - 1) as nat) >= 0) by (nonlinear_arith)
            requires
                row@[0] >= 0,
                pow256((len - 1) as nat) >= 1,
        ;
    }
    if row[0] >= 128 {
        if len == 8 {
            // the value occupies the full word; shift it down into range
            proof {
                assert(row@[0] * pow256(7) >= 128 * pow256(7)) by (nonlinear_arith)
                    requires
                        row@[0] >= 128,
                        pow256(7) >= 1,
                ;
            }
            -((0xFFFFFFFFFFFFFFFFu64 - u) as i64) - 1
        } else {
            // u < 2^56, so the difference fits comfortably
            let p: u64 = match len {
                1 => 0x100,
                2 => 0x10000,
                3 => 0x1000000,
                4 => 0x100000000,
                5 => 0x10000000000,
                6 => 0x1000000000000,
                _ => 0x100000000000000,
            };
            proof {
                assert(p == pow256(len as nat));
            }
            (u as i64) - (p as i64)
        }
    } else {
        proof {
            assert(row@[0] * pow256((len - 1) as nat) <= 127 * pow256((len - 1) as nat))
                by (nonlinear_arith)
                requires
                    row@[0] <= 127,
                    pow256((len - 1) as nat) >= 1,
            ;
        }
        u as i64
    }
}

// ---------------------------------------------------------------------------
// Byte-wise ordering
// ---------------------------------------------------------------------------

/// A three-way comparison outcome.
#[derive(Debug, Clone, Copy, PartialEq, Eq, Structural)]
pub enum KeyOrdering {
    Less,
    Equal,
    Greater,
}

/// Lexicographic byte order.
pub open spec fn lex_cmp(a: Seq<u8>, b: Seq<u8>) -> KeyOrdering
    decreases a.len(),
{
    if a.len() == 0 && b.len() == 0 {
        KeyOrdering::Equal
    } else if a.len() == 0 {
        KeyOrdering::Less
    } else if b.len() == 0 {
        KeyOrdering::Greater
    } else if a[0] < b[0] {
        KeyOrdering::Less
    } else if a[0] > b[0] {
        KeyOrdering::Greater
    } else {
        lex_cmp(a.skip(1), b.skip(1))
    }
}

/// Compares two byte strings lexicographically.
#[verifier::loop_isolation(false)]
pub fn compare_bytes(a: &[u8], b: &[u8]) -> (r: KeyOrdering)
    ensures
        r == lex_cmp(a@, b@),
{
    let alen = a.len();
    let blen = b.len();
    let mut i: usize = 0;
    proof {
        assert(a@.skip(0) =~= a@);
        assert(b@.skip(0) =~= b@);
    }
    while i < alen && i < blen
        invariant
            i <= alen,
            i <= blen,
            lex_cmp(a@, b@) == lex_cmp(a@.skip(i as int), b@.skip(i as int)),
        decreases alen - i,
    {
        let x = a[i];
        let y = b[i];
        proof {
            assert(a@.skip(i as int)[0] == a@[i as int]);
            assert(b@.skip(i as int)[0] == b@[i as int]);
            assert(a@.skip(i as int).skip(1) =~= a@.skip(i + 1));
            assert(b@.skip(i as int).skip(1) =~= b@.skip(i + 1));
        }
        if x < y {
            return KeyOrdering::Less;
        }
        if x > y {
            return KeyOrdering::Greater;
        }
        i = i + 1;
    }
    proof {
        assert(a@.skip(i as int).len() == alen - i);
        assert(b@.skip(i as int).len() == blen - i);
    }
    if alen == blen {
        KeyOrdering::Equal
    } else if alen < blen {
        KeyOrdering::Less
    } else {
        KeyOrdering::Greater
    }
}

/// `lex_cmp` is `Equal` exactly on equal sequences.
pub proof fn lemma_lex_cmp_eq(a: Seq<u8>, b: Seq<u8>)
    ensures
        (lex_cmp(a, b) == KeyOrdering::Equal) <==> a == b,
    decreases a.len(),
{
    if a.len() == 0 && b.len() == 0 {
        assert(a =~= b);
    } else if a.len() == 0 || b.len() == 0 {
    } else if a[0] == b[0] {
        lemma_lex_cmp_eq(a.skip(1), b.skip(1));
        if lex_cmp(a, b) == KeyOrdering::Equal {
            assert(a.skip(1) == b.skip(1));
            assert(a =~= seq![a[0]].add(a.skip(1)));
            assert(b =~= seq![b[0]].add(b.skip(1)));
        }
    } else {
        if a == b {
            assert(a[0] == b[0]);
        }
    }
}

/// Copies a byte vector.
pub fn copy_bytes(v: &Vec<u8>) -> (r: Vec<u8>)
    ensures
        r@ == v@,
{
    let mut out: Vec<u8> = Vec::new();
    let mut i: usize = 0;
    let len = v.len();
    while i < len
        invariant
            i <= len,
            len == v@.len(),
            out@ == v@.take(i as int),
        decreases len - i,
    {
        out.push(v[i]);
        i = i + 1;
        proof {
            assert(out@ =~= v@.take(i as int));
        }
    }
    proof {
        assert(v@.take(len as int) =~= v@);
    }
    out
}

/// Appends the bytes of `src` to `dst`.
pub fn push_bytes(dst: &mut Vec<u8>, src: &Vec<u8>)
    ensures
        final(dst)@ == old(dst)@.add(src@),
{
    let mut i: usize = 0;
    let len = src.len();
    while i < len
        invariant
            i <= len,
            len == src@.len(),
            dst@ == old(dst)@.add(src@.take(i as int)),
        decreases len - i,
    {
        dst.push(src[i]);
        i = i + 1;
        proof {
            assert(dst@ =~= old(dst)@.add(src@.take(i as int)));
        }
    }
    proof {
        assert(src@.take(len as int) =~= src@);
    }
}

/// True exactly when the two byte vectors hold the same bytes.
pub fn bytes_eq(a: &Vec<u8>, b: &Vec<u8>) -> (r: bool)
    ensures
        r == (a@ == b@),
{
    let c = compare_bytes(a.as_slice(), b.as_slice());
    proof {
        lemma_lex_cmp_eq(a@, b@);
    }
    c == KeyOrdering::Equal
}

} // verus!
