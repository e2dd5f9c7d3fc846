//! Small byte-level helpers: slice equality, lowercase hex, and big-endian
//! words. These are shared by the job-id handling, the wire codec and the
//! snapshot encoding.

use vstd::prelude::*;

verus! {

/// Compares two byte vectors by contents.
pub fn bytes_eq(a: &Vec<u8>, b: &Vec<u8>) -> (r: bool)
    ensures r == (a@ == b@),
{
    if a.len() != b.len() {
        proof {
            assert(a@.len() != b@.len());
        }
        return false;
    }
    let mut i: usize = 0;
    while i < a.len()
        invariant
            a@.len() == b@.len(),
            0 <= i <= a@.len(),
            forall|j: int| 0 <= j < i ==> a@[j] == b@[j],
        decreases a@.len() - i,
    {
        if a[i] != b[i] {
            return false;
        }
        i = i + 1;
    }
    proof {
        assert(a@ =~= b@);
    }
    true
}

/// Copies a byte vector.
pub fn copy_bytes(v: &Vec<u8>) -> (r: Vec<u8>)
    ensures r@ == v@,
{
    let mut r: Vec<u8> = Vec::new();
    let mut i: usize = 0;
    while i < v.len()
        invariant
            0 <= i <= v@.len(),
            r@ == v@.take(i as int),
        decreases v@.len() - i,
    {
        r.push(v[i]);
        proof {
            assert(v@.take(i + 1) =~= v@.take(i as int).push(v@[i as int]));
        }
        i = i + 1;
    }
    proof {
        assert(v@.take(v@.len() as int) =~= v@);
    }
    r
}

/// Is `b` the ASCII code of a lowercase or uppercase hex digit?
pub open spec fn is_hex_digit(b: u8) -> bool {
    (48 <= b <= 57) || (97 <= b <= 102) || (65 <= b <= 70)
}

/// Value of a hex digit byte.
pub open spec fn hex_val(b: u8) -> u8
    recommends is_hex_digit(b),
{
    if 48 <= b <= 57 {
        (b - 48) as u8
    } else if 97 <= b <= 102 {
        (b - 87) as u8
    } else {
        (b - 55) as u8
    }
}

/// ASCII code of the lowercase hex digit for a value below 16.
pub open spec fn hex_digit(v: u8) -> u8
    recommends v < 16,
{
    if v < 10 {
        (v + 48) as u8
    } else {
        (v + 87) as u8
    }
}

/// Lowercase hex encoding of a byte sequence, two digits per byte.
pub open spec fn hex_of_bytes(s: Seq<u8>) -> Seq<u8>
    decreases s.len(),
{
    if s.len() == 0 {
        Seq::<u8>::empty()
    } else {
        seq![hex_digit(s[0] / 16), hex_digit(s[0] % 16)] + hex_of_bytes(s.skip(1))
    }
}

exec fn hex_digit_exec(v: u8) -> (r: u8)
    requires v < 16,
    ensures r == hex_digit(v),
{
    if v < 10 {
        v + 48
    } else {
        v + 87
    }
}

exec fn hex_val_exec(b: u8) -> (r: u8)
    requires is_hex_digit(b),
    ensures r == hex_val(b),
{
    if 48 <= b && b <= 57 {
        b - 48
    } else if 97 <= b && b <= 102 {
        b - 87
    } else {
        b - 55
    }
}

exec fn is_hex_digit_exec(b: u8) -> (r: bool)
    ensures r == is_hex_digit(b),
{
    (48 <= b && b <= 57) || (97 <= b && b <= 102) || (65 <= b && b <= 70)
}

proof fn lemma_hex_of_bytes_push(s: Seq<u8>, x: u8)
    ensures
        hex_of_bytes(s.push(x)) == hex_of_bytes(s) + seq![hex_digit(x / 16), hex_digit(x % 16)],
    decreases s.len(),
{
    assert(hex_of_bytes(Seq::<u8>::empty()) == Seq::<u8>::empty());
    if s.len() == 0 {
        assert(s =~= Seq::<u8>::empty());
        assert(s.push(x).skip(1) =~= Seq::<u8>::empty());
        assert(hex_of_bytes(s.push(x))
            =~= hex_of_bytes(s) + seq![hex_digit(x / 16), hex_digit(x % 16)]);
    } else {
        assert(s.push(x).skip(1) =~= s.skip(1).push(x));
        lemma_hex_of_bytes_push(s.skip(1), x);
        assert(hex_of_bytes(s.push(x))
            =~= hex_of_bytes(s) + seq![hex_digit(x / 16), hex_digit(x % 16)]);
    }
}

/// Lowercase hex encoding of a byte vector.
pub fn encode_hex(bytes: &Vec<u8>) -> (r: Vec<u8>)
    ensures r@ == hex_of_bytes(bytes@),
{
    let mut r: Vec<u8> = Vec::new();
    let mut i: usize = 0;
    while i < bytes.len()
        invariant
            0 <= i <= bytes@.len(),
            r@ == hex_of_bytes(bytes@.take(i as int)),
        decreases bytes@.len() - i,
    {
        let b = bytes[i];
        r.push(hex_digit_exec(b / 16));
        r.push(hex_digit_exec(b % 16));
        proof {
            assert(bytes@.take(i + 1) =~= bytes@.take(i as int).push(bytes@[i as int]));
            lemma_hex_of_bytes_push(bytes@.take(i as int), bytes@[i as int]);
            assert(r@ =~= hex_of_bytes(bytes@.take(i + 1)));
        }
        i = i + 1;
    }
    proof {
        assert(bytes@.take(bytes@.len() as int) =~= bytes@);
    }
    r
}

/// Decodes a hex string into bytes. Accepts upper- and lowercase digits;
/// fails on odd length or any non-hex byte.
pub fn decode_hex(input: &Vec<u8>) -> (r: Option<Vec<u8>>)
    ensures
        match r {
            Some(bs) => {
                &&& input@.len() == 2 * bs@.len()
                &&& forall|j: int| 0 <= j < input@.len() ==> is_hex_digit(input@[j])
                &&& forall|j: int|
                    0 <= j < bs@.len() ==> bs@[j] == hex_val(input@[2 * j]) * 16 + hex_val(
                        input@[2 * j + 1],
                    )
            },
            None => input@.len() % 2 != 0 || exists|j: int|
                0 <= j < input@.len() && !is_hex_digit(input@[j]),
        },
{
    if input.len() % 2 != 0 {
        return None;
    }
    let mut bs: Vec<u8> = Vec::new();
    let mut i: usize = 0;
    while i + 1 < input.len()
        invariant
            i % 2 == 0,
            input@.len() % 2 == 0,
            0 <= i <= input@.len(),
            bs@.len() * 2 == i,
            forall|j: int| 0 <= j < i ==> is_hex_digit(input@[j]),
            forall|j: int|
                0 <= j < bs@.len() ==> bs@[j] == hex_val(input@[2 * j]) * 16 + hex_val(
                    input@[2 * j + 1],
                ),
        decreases input@.len() - i,
    {
        let hi = input[i];
        let lo = input[i + 1];
        if !is_hex_digit_exec(hi) || !is_hex_digit_exec(lo) {
            return None;
        }
        bs.push(hex_val_exec(hi) * 16 + hex_val_exec(lo));
        i = i + 2;
    }
    Some(bs)
}



/// Sixteen to the `n`-th power.
pub open spec fn p16(n: nat) -> int
    decreases n,
{
    if n == 0 {
        1
    } else {
        16 * p16((n - 1) as nat)
    }
}

proof fn lemma_p16_vals()
    ensures
        p16(15) == 0x1000_0000_0000_0000,
        p16(16) == 0x1_0000_0000_0000_0000,
{
    assert(p16(0) == 0x1);
    assert(p16(1) == 0x10);
    assert(p16(2) == 0x100);
    assert(p16(3) == 0x1000);
    assert(p16(4) == 0x10000);
    assert(p16(5) == 0x100000);
    assert(p16(6) == 0x1000000);
    assert(p16(7) == 0x10000000);
    assert(p16(8) == 0x100000000);
    assert(p16(9) == 0x1000000000);
    assert(p16(10) == 0x10000000000);
    assert(p16(11) == 0x100000000000);
    assert(p16(12) == 0x1000000000000);
    assert(p16(13) == 0x10000000000000);
    assert(p16(14) == 0x100000000000000);
    assert(p16(15) == 0x1000000000000000);
    assert(p16(16) == 0x10000000000000000);
}

/// `p16` grows with its exponent.
proof fn lemma_p16_mono(a: nat, b: nat)
    requires a <= b,
    ensures p16(a) <= p16(b), p16(a) >= 1,
    decreases b,
{
    if b > 0 {
        if a == b {
            lemma_p16_mono((a - 1) as nat, (b - 1) as nat);
            assert(p16(b) == 16 * p16((b - 1) as nat));
            assert(p16(a) == 16 * p16((a - 1) as nat));
        } else {
            lemma_p16_mono(a, (b - 1) as nat);
            assert(p16(b) == 16 * p16((b - 1) as nat));
        }
    }
}

/// A hex string's value is bounded by sixteen to its length.
proof fn lemma_hex_value_bound(s: Seq<u8>)
    requires forall|i: int| 0 <= i < s.len() ==> is_hex_digit(#[trigger] s[i]),
    ensures 0 <= hex_value(s) < p16(s.len()),
    decreases s.len(),
{
    if s.len() == 0 {
    } else {
        let d = s.drop_last();
        assert forall|i: int| 0 <= i < d.len() implies is_hex_digit(#[trigger] d[i]) by {
            assert(d[i] == s[i]);
        }
        lemma_hex_value_bound(d);
        assert(is_hex_digit(s.last()));
        assert(hex_val(s.last()) <= 15);
        assert(hex_value(s) == hex_value(d) * 16 + hex_val(s.last()));
        assert(hex_value(d) * 16 <= (p16(d.len()) - 1) * 16) by (nonlinear_arith)
            requires hex_value(d) <= p16(d.len()) - 1;
        assert(p16(s.len()) == 16 * p16(d.len()));
    }
}

/// Value of a hex digit string, most significant first.
pub open spec fn hex_value(s: Seq<u8>) -> int
    decreases s.len(),
{
    if s.len() == 0 {
        0
    } else {
        hex_value(s.drop_last()) * 16 + hex_val(s.last())
    }
}

/// Parses a hex string of one to sixteen digits as a `u64`, most
/// significant digit first; leading zeros are accepted.
pub fn parse_hex_u64(v: &Vec<u8>) -> (r: Option<u64>)
    ensures
        r matches Some(n) ==> {
            &&& 1 <= v@.len() <= 16
            &&& forall|i: int| 0 <= i < v@.len() ==> is_hex_digit(#[trigger] v@[i])
            &&& n == hex_value(v@)
        },
        r is None ==> v@.len() < 1 || v@.len() > 16 || exists|i: int|
            0 <= i < v@.len() && !is_hex_digit(#[trigger] v@[i]),
{
    let n = v.len();
    if n < 1 || n > 16 {
        return None;
    }
    let mut acc: u64 = 0;
    let mut i: usize = 0;
    while i < n
        invariant
            0 <= i <= n <= 16,
            n == v@.len(),
            forall|j: int| 0 <= j < i ==> is_hex_digit(#[trigger] v@[j]),
            acc == hex_value(v@.take(i as int)),
        decreases n - i,
    {
        let b = v[i];
        if !is_hex_digit_exec(b) {
            return None;
        }
        proof {
            assert(v@.take(i + 1).drop_last() =~= v@.take(i as int));
            assert(v@.take(i + 1).last() == v@[i as int]);
            assert forall|j: int| 0 <= j < v@.take(i as int).len() implies is_hex_digit(
                #[trigger] v@.take(i as int)[j],
            ) by {
                assert(v@.take(i as int)[j] == v@[j]);
            }
            lemma_hex_value_bound(v@.take(i as int));
            lemma_p16_vals();
            lemma_p16_mono(i as nat, 15nat);
        }
        acc = acc * 16 + hex_val_exec(b) as u64;
        i = i + 1;
    }
    proof {
        assert(v@.take(n as int) =~= v@);
    }
    Some(acc)
}

/// Big-endian byte representation of a `u32`.
pub open spec fn be32(n: u32) -> Seq<u8> {
    seq![(n >> 24) as u8, (n >> 16) as u8, (n >> 8) as u8, n as u8]
}

/// Big-endian byte representation of a `u64`.
pub open spec fn be64(n: u64) -> Seq<u8> {
    seq![
        (n >> 56) as u8,
        (n >> 48) as u8,
        (n >> 40) as u8,
        (n >> 32) as u8,
        (n >> 24) as u8,
        (n >> 16) as u8,
        (n >> 8) as u8,
        n as u8,
    ]
}

/// The `u32` encoded by four big-endian bytes.
pub open spec fn u32_of_be(b0: u8, b1: u8, b2: u8, b3: u8) -> u32 {
    (((b0 as u32) << 24) | ((b1 as u32) << 16) | ((b2 as u32) << 8) | (b3 as u32)) as u32
}

/// The `u64` encoded by eight big-endian bytes.
pub open spec fn u64_of_be(b: Seq<u8>) -> u64
    recommends b.len() == 8,
{
    (((b[0] as u64) << 56) | ((b[1] as u64) << 48) | ((b[2] as u64) << 40) | ((b[3] as u64) << 32)
        | ((b[4] as u64) << 24) | ((b[5] as u64) << 16) | ((b[6] as u64) << 8) | (b[7] as u64)) as u64
}

/// Big-endian decomposition and recomposition of a `u32` are inverse.
pub proof fn lemma_be32_roundtrip(n: u32)
    ensures u32_of_be((n >> 24) as u8, (n >> 16) as u8, (n >> 8) as u8, n as u8) == n,
{
    assert((((((n >> 24) as u8) as u32) << 24) | ((((n >> 16) as u8) as u32) << 16) | (((
    (n >> 8) as u8) as u32) << 8) | ((n as u8) as u32)) == n) by (bit_vector);
}

/// Big-endian decomposition and recomposition of a `u64` are inverse.
pub proof fn lemma_be64_roundtrip(n: u64)
    ensures u64_of_be(be64(n)) == n,
{
    assert((((((n >> 56) as u8) as u64) << 56) | ((((n >> 48) as u8) as u64) << 48) | (((
    (n >> 40) as u8) as u64) << 40) | ((((n >> 32) as u8) as u64) << 32) | ((((n >> 24) as u8)
        as u64) << 24) | ((((n >> 16) as u8) as u64) << 16) | ((((n >> 8) as u8) as u64) << 8) | ((
    n as u8) as u64)) == n) by (bit_vector);
}

/// Encodes a `u32` as four big-endian bytes.
pub fn u32_to_be(n: u32) -> (r: Vec<u8>)
    ensures r@ == be32(n),
{
    let mut r: Vec<u8> = Vec::new();
    r.push((n >> 24) as u8);
    r.push((n >> 16) as u8);
    r.push((n >> 8) as u8);
    r.push(n as u8);
    proof { assert(r@ =~= be32(n)); }
    r
}

/// Encodes a `u64` as eight big-endian bytes.
pub fn u64_to_be(n: u64) -> (r: Vec<u8>)
    ensures r@ == be64(n),
{
    let mut r: Vec<u8> = Vec::new();
    r.push((n >> 56) as u8);
    r.push((n >> 48) as u8);
    r.push((n >> 40) as u8);
    r.push((n >> 32) as u8);
    r.push((n >> 24) as u8);
    r.push((n >> 16) as u8);
    r.push((n >> 8) as u8);
    r.push(n as u8);
    proof { assert(r@ =~= be64(n)); }
    r
}

/// Reads four big-endian bytes of `b` starting at `at` as a `u32`.
pub fn u32_from_be(b: &Vec<u8>, at: usize) -> (r: u32)
    requires at + 4 <= b@.len(),
    ensures r == u32_of_be(b@[at as int], b@[at as int + 1], b@[at as int + 2], b@[at as int + 3]),
{
    let n: usize = b.len();
    ((b[at] as u32) << 24) | ((b[at + 1] as u32) << 16) | ((b[at + 2] as u32) << 8) | (b[at
        + 3] as u32)
}

/// Reads eight big-endian bytes of `b` starting at `at` as a `u64`.
pub fn u64_from_be(b: &Vec<u8>, at: usize) -> (r: u64)
    requires at + 8 <= b@.len(),
    ensures r == u64_of_be(b@.subrange(at as int, at as int + 8)),
{
    let n: usize = b.len();
    let r = ((b[at] as u64) << 56) | ((b[at + 1] as u64) << 48) | ((b[at + 2] as u64) << 40) | ((
    b[at + 3] as u64) << 32) | ((b[at + 4] as u64) << 24) | ((b[at + 5] as u64) << 16) | ((b[at
        + 6] as u64) << 8) | (b[at + 7] as u64);
    proof {
        let s = b@.subrange(at as int, at as int + 8);
        assert(s[0] == b@[at as int]);
        assert(s[1] == b@[at as int + 1]);
        assert(s[2] == b@[at as int + 2]);
        assert(s[3] == b@[at as int + 3]);
        assert(s[4] == b@[at as int + 4]);
        assert(s[5] == b@[at as int + 5]);
        assert(s[6] == b@[at as int + 6]);
        assert(s[7] == b@[at as int + 7]);
    }
    r
}

} // verus!
