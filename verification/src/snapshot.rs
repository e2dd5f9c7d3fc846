//! Key-value snapshots of the PPLNS window.
//!
//! The window is dumped as one ordered-KV pair per entry, keyed by a
//! zero byte and the big-endian insertion index so that entries iterate
//! in insertion order, plus a trailer pair keyed by a lone one byte that
//! carries `N`. Restoring a snapshot and snapshotting again yields
//! byte-identical contents.

use vstd::prelude::*;
use crate::pplns::{ShareEntry, ShareModel};
use crate::util::{be32, be64, u32_of_be, u64_of_be, u32_to_be, u64_to_be, u32_from_be, u64_from_be,
    lemma_be32_roundtrip, lemma_be64_roundtrip};

verus! {

/// An entry whose variable-length fields fit their length prefixes.
pub open spec fn entry_ok(e: ShareModel) -> bool {
    e.address.len() < 0x1_0000_0000 && e.epoch_hash.len() < 0x1_0000_0000
}

/// Byte encoding of one window entry: length-prefixed address, weight,
/// length-prefixed epoch hash.
pub open spec fn enc_entry(e: ShareModel) -> Seq<u8> {
    be32(e.address.len() as u32) + e.address + be64(e.weight) + be32(e.epoch_hash.len() as u32)
        + e.epoch_hash
}

/// The snapshot of a window and its `N`: entry pairs in order, then the
/// trailer.
pub open spec fn snapshot_spec(win: Seq<ShareModel>, n: u64) -> Seq<(Seq<u8>, Seq<u8>)> {
    Seq::new(
        win.len() + 1,
        |i: int|
            if i < win.len() {
                (seq![0u8] + be64(i as u64), enc_entry(win[i]))
            } else {
                (seq![1u8], be64(n))
            },
    )
}

/// The abstract contents of a key-value pair list.
pub open spec fn kv_models(kv: Seq<(Vec<u8>, Vec<u8>)>) -> Seq<(Seq<u8>, Seq<u8>)> {
    kv.map_values(|p: (Vec<u8>, Vec<u8>)| (p.0@, p.1@))
}

/// Big-endian decode then encode returns the original four bytes.
proof fn lemma_be32_bytes(b0: u8, b1: u8, b2: u8, b3: u8)
    ensures be32(u32_of_be(b0, b1, b2, b3)) == seq![b0, b1, b2, b3],
{
    let x = u32_of_be(b0, b1, b2, b3);
    assert((((((b0 as u32) << 24) | ((b1 as u32) << 16) | ((b2 as u32) << 8) | (b3 as u32))
        as u32) >> 24) as u8 == b0 && (((((b0 as u32) << 24) | ((b1 as u32) << 16) | ((
    b2 as u32) << 8) | (b3 as u32)) as u32) >> 16) as u8 == b1 && (((((b0 as u32) << 24) | ((
    b1 as u32) << 16) | ((b2 as u32) << 8) | (b3 as u32)) as u32) >> 8) as u8 == b2 && ((((
    b0 as u32) << 24) | ((b1 as u32) << 16) | ((b2 as u32) << 8) | (b3 as u32)) as u32) as u8
        == b3) by (bit_vector);
    assert(be32(x) =~= seq![b0, b1, b2, b3]);
}

/// Encodes one entry.
pub fn encode_entry(e: &ShareEntry) -> (r: Vec<u8>)
    requires entry_ok(e@),
    ensures r@ == enc_entry(e@),
{
    let mut r = u32_to_be(e.address.len() as u32);
    crate::codec::append_bytes(&mut r, &e.address);
    let w = u64_to_be(e.weight);
    crate::codec::append_bytes(&mut r, &w);
    let hl = u32_to_be(e.epoch_hash.len() as u32);
    crate::codec::append_bytes(&mut r, &hl);
    crate::codec::append_bytes(&mut r, &e.epoch_hash);
    r
}

/// Decodes one entry; accepts exactly the strings `encode_entry` makes.
pub fn decode_entry(b: &Vec<u8>) -> (r: Option<ShareEntry>)
    ensures
        r matches Some(e) ==> entry_ok(e@) && b@ == enc_entry(e@),
        forall|e: ShareModel| entry_ok(e) && b@ == enc_entry(e) ==> r is Some && r.unwrap()@ == e,
{
    let n = b.len();
    if n < 4 {
        return None;
    }
    let alen32 = u32_from_be(b, 0);
    let alen = alen32 as usize;
    if n < 4 || alen > n - 4 || n - 4 - alen < 12 {
        proof {
            assert forall|e: ShareModel| !(entry_ok(e) && b@ == enc_entry(e)) by {
                if entry_ok(e) && b@ == enc_entry(e) {
                    lemma_entry_shape(b@, e);
                    lemma_be32_roundtrip(e.address.len() as u32);
                }
            }
        }
        return None;
    }
    let mut address: Vec<u8> = Vec::new();
    let mut i: usize = 4;
    while i < 4 + alen
        invariant
            4 <= i <= 4 + alen,
            4 + alen <= n,
            n == b@.len(),
            address@ == b@.subrange(4, i as int),
        decreases 4 + alen - i,
    {
        address.push(b[i]);
        proof {
            assert(b@.subrange(4, i + 1) =~= b@.subrange(4, i as int).push(b@[i as int]));
        }
        i = i + 1;
    }
    let weight = u64_from_be(b, 4 + alen);
    let hlen32 = u32_from_be(b, 4 + alen + 8);
    let hlen = hlen32 as usize;
    if n - 4 - alen - 12 != hlen {
        proof {
            assert forall|e: ShareModel| !(entry_ok(e) && b@ == enc_entry(e)) by {
                if entry_ok(e) && b@ == enc_entry(e) {
                    lemma_entry_shape(b@, e);
                    lemma_be32_roundtrip(e.address.len() as u32);
                    lemma_be32_roundtrip(e.epoch_hash.len() as u32);
                }
            }
        }
        return None;
    }
    let mut epoch_hash: Vec<u8> = Vec::new();
    let mut j: usize = 4 + alen + 12;
    while j < n
        invariant
            4 + alen + 12 <= j <= n,
            n == b@.len(),
            epoch_hash@ == b@.subrange(4 + alen as int + 12, j as int),
        decreases n - j,
    {
        epoch_hash.push(b[j]);
        proof {
            assert(b@.subrange(4 + alen as int + 12, j + 1) =~= b@.subrange(
                4 + alen as int + 12,
                j as int,
            ).push(b@[j as int]));
        }
        j = j + 1;
    }
    let e = ShareEntry { address, weight, epoch_hash };
    proof {
        lemma_be32_bytes(b@[0], b@[1], b@[2], b@[3]);
        lemma_be32_bytes(
            b@[4 + alen as int + 8],
            b@[4 + alen as int + 9],
            b@[4 + alen as int + 10],
            b@[4 + alen as int + 11],
        );
        assert(b@ =~= be32(e@.address.len() as u32) + e@.address + be64(e@.weight) + be32(
            e@.epoch_hash.len() as u32,
        ) + e@.epoch_hash) by {
            assert(e@.address.len() == alen);
            assert(be32(alen32) =~= b@.subrange(0, 4));
            assert(be64(weight) =~= b@.subrange(4 + alen as int, 4 + alen as int + 8)) by {
                lemma_be64_bytes_sub(b@, 4 + alen as int);
            }
            assert(be32(hlen32) =~= b@.subrange(4 + alen as int + 8, 4 + alen as int + 12));
        }
        assert forall|e2: ShareModel|
            entry_ok(e2) && b@ == enc_entry(e2) implies e2 == e@ by {
            lemma_entry_shape(b@, e2);
            lemma_be32_roundtrip(e2.address.len() as u32);
            lemma_be32_roundtrip(e2.epoch_hash.len() as u32);
            assert(e2.address =~= e@.address);
            assert(e2.epoch_hash =~= e@.epoch_hash);
            lemma_be64_roundtrip(e2.weight);
        }
    }
    Some(e)
}

/// Positions of the fields inside an entry encoding.
#[verifier::rlimit(100)]
#[verifier::spinoff_prover]
proof fn lemma_entry_shape(s: Seq<u8>, e: ShareModel)
    requires
        entry_ok(e),
        s == enc_entry(e),
    ensures
        s.len() == 16 + e.address.len() as int + e.epoch_hash.len(),
        s.subrange(0, 4) == be32(e.address.len() as u32),
        s.subrange(4, 4 + e.address.len() as int) == e.address,
        s.subrange(4 + e.address.len() as int, 4 + e.address.len() as int + 8) == be64(e.weight),
        s.subrange(4 + e.address.len() as int + 8, 4 + e.address.len() as int + 12) == be32(
            e.epoch_hash.len() as u32,
        ),
        s.subrange(4 + e.address.len() as int + 12, s.len() as int) == e.epoch_hash,
        u32_of_be(s[0], s[1], s[2], s[3]) == e.address.len() as int,
        u64_of_be(s.subrange(4 + e.address.len() as int, 4 + e.address.len() as int + 8)) == e.weight,
        u32_of_be(
            s[4 + e.address.len() as int + 8],
            s[4 + e.address.len() as int + 9],
            s[4 + e.address.len() as int + 10],
            s[4 + e.address.len() as int + 11],
        ) == e.epoch_hash.len(),
{
    let c0 = be32(e.address.len() as u32);
    let c1 = e.address;
    let c2 = be64(e.weight);
    let c3 = be32(e.epoch_hash.len() as u32);
    let c4 = e.epoch_hash;
    assert(s.skip(0) =~= s);
    assert(s.skip(0) == c0 + (c1 + (c2 + (c3 + c4)))) by {
        assert(c0 + c1 + c2 + c3 + c4 =~= c0 + (c1 + (c2 + (c3 + c4))));
    }
    crate::codec::lemma_skip_split(s, 0, c0, c1 + (c2 + (c3 + c4)));
    crate::codec::lemma_skip_split(s, 4, c1, c2 + (c3 + c4));
    crate::codec::lemma_skip_split(s, 4 + c1.len() as int, c2, c3 + c4);
    crate::codec::lemma_skip_split(s, 4 + c1.len() as int + 8, c3, c4);
    assert(s.skip(4 + c1.len() as int + 12) == c4 + Seq::<u8>::empty()) by {
        assert(c4 + Seq::<u8>::empty() =~= c4);
    }
    crate::codec::lemma_skip_split(s, 4 + c1.len() as int + 12, c4, Seq::<u8>::empty());
    lemma_be32_roundtrip(e.address.len() as u32);
    lemma_be32_roundtrip(e.epoch_hash.len() as u32);
    lemma_be64_roundtrip(e.weight);
    assert(s[0] == c0[0] && s[1] == c0[1] && s[2] == c0[2] && s[3] == c0[3]) by {
        assert(s.subrange(0, 4)[0] == s[0]);
        assert(s.subrange(0, 4)[1] == s[1]);
        assert(s.subrange(0, 4)[2] == s[2]);
        assert(s.subrange(0, 4)[3] == s[3]);
    }
    let h = 4 + e.address.len() as int as int + 8;
    assert(s[h] == c3[0] && s[h + 1] == c3[1] && s[h + 2] == c3[2] && s[h + 3] == c3[3]) by {
        assert(s.subrange(h, h + 4)[0] == s[h]);
        assert(s.subrange(h, h + 4)[1] == s[h + 1]);
        assert(s.subrange(h, h + 4)[2] == s[h + 2]);
        assert(s.subrange(h, h + 4)[3] == s[h + 3]);
    }
}

/// Eight big-endian bytes read back from a subrange recompose to the value
/// whose encoding they are.
proof fn lemma_be64_bytes_sub(s: Seq<u8>, at: int)
    requires
        0 <= at,
        at + 8 <= s.len(),
    ensures be64(u64_of_be(s.subrange(at, at + 8))) == s.subrange(at, at + 8),
{
    let b = s.subrange(at, at + 8);
    let b0 = b[0];
    let b1 = b[1];
    let b2 = b[2];
    let b3 = b[3];
    let b4 = b[4];
    let b5 = b[5];
    let b6 = b[6];
    let b7 = b[7];
    let x = u64_of_be(b);
    assert(x == (((b0 as u64) << 56) | ((b1 as u64) << 48) | ((b2 as u64) << 40) | ((
    b3 as u64) << 32) | ((b4 as u64) << 24) | ((b5 as u64) << 16) | ((b6 as u64) << 8) | (
    b7 as u64)) as u64);
    let y = (((b0 as u64) << 56) | ((b1 as u64) << 48) | ((b2 as u64) << 40) | ((b3 as u64)
        << 32) | ((b4 as u64) << 24) | ((b5 as u64) << 16) | ((b6 as u64) << 8) | (
    b7 as u64)) as u64;
    assert((y >> 56) as u8 == b0 && (y >> 48) as u8 == b1 && (y >> 40) as u8 == b2 && (y
        >> 32) as u8 == b3 && (y >> 24) as u8 == b4 && (y >> 16) as u8 == b5 && (y >> 8) as u8
        == b6 && y as u8 == b7) by (bit_vector)
        requires y == (((b0 as u64) << 56) | ((b1 as u64) << 48) | ((b2 as u64) << 40) | ((
        b3 as u64) << 32) | ((b4 as u64) << 24) | ((b5 as u64) << 16) | ((b6 as u64) << 8) | (
        b7 as u64)) as u64;
    assert(be64(x) =~= b);
}



/// The eight-byte encoding recovered from a buffer's first eight bytes.
pub open spec fn be_of_sub(b: Seq<u8>) -> Seq<u8> {
    be64(u64_of_be(b.subrange(0, 8)))
}

/// Reading one pair out of a matching snapshot.
pub proof fn lemma_snapshot_index(
    kv: Seq<(Vec<u8>, Vec<u8>)>,
    win: Seq<ShareModel>,
    n2: u64,
    i: int,
)
    requires
        kv_models(kv) == snapshot_spec(win, n2),
        0 <= i < kv.len(),
    ensures
        kv.len() == win.len() + 1,
        i < win.len() ==> kv[i].0@ == seq![0u8] + be64(i as u64) && kv[i].1@ == enc_entry(win[i]),
        i == win.len() ==> kv[i].0@ == seq![1u8] && kv[i].1@ == be64(n2),
{
    assert(kv_models(kv).len() == kv.len());
    assert(snapshot_spec(win, n2).len() == win.len() + 1);
    assert(kv_models(kv)[i] == (kv[i].0@, kv[i].1@));
    assert(kv_models(kv)[i] == snapshot_spec(win, n2)[i]);
}

/// Two entries with the same encoding are equal.
pub proof fn lemma_enc_entry_inj(a: ShareModel, b: ShareModel)
    requires
        entry_ok(a),
        entry_ok(b),
        enc_entry(a) == enc_entry(b),
    ensures a == b,
{
    let s = enc_entry(a);
    lemma_entry_shape(s, a);
    lemma_entry_shape(s, b);
    assert(a.address.len() == b.address.len());
    assert(a.address =~= b.address);
    assert(a.epoch_hash.len() == b.epoch_hash.len());
    assert(a.epoch_hash =~= b.epoch_hash);
    lemma_be64_roundtrip(a.weight);
    lemma_be64_roundtrip(b.weight);
}

/// Eight bytes are the encoding of the value they decode to.
pub proof fn lemma_be64_self(b: Seq<u8>)
    requires b.len() == 8,
    ensures be64(u64_of_be(b.subrange(0, 8))) == b,
{
    assert(b.subrange(0, 8) =~= b);
    lemma_be64_bytes_sub(b, 0);
}

} // verus!
