//! Time-expiring key/value store.
//!
//! Maps a byte-string key to a value and its insertion time. A lookup
//! returns the value only while `now - insert_time <= duration`; nothing
//! expires in the background. Used to remember recent block credits so a
//! late duplicate notification for a known block is a no-op.

use vstd::prelude::*;
use crate::util::bytes_eq;

verus! {

pub struct TtlMap<V> {
    duration_ms: u64,
    entries: Vec<(Vec<u8>, V, u64)>,
}

impl<V: Copy> TtlMap<V> {
    /// Index of the entry with the given key, or -1.
    pub open spec fn idx_of(s: Seq<(Vec<u8>, V, u64)>, k: Seq<u8>) -> int
        decreases s.len(),
    {
        if s.len() == 0 {
            -1
        } else if s[0].0@ == k {
            0
        } else {
            let r = Self::idx_of(s.skip(1), k);
            if r < 0 {
                -1
            } else {
                r + 1
            }
        }
    }

    /// The stored `(value, insert_time)` pair for a key, if any.
    pub closed spec fn lookup(self, k: Seq<u8>) -> Option<(V, u64)> {
        let i = Self::idx_of(self.entries@, k);
        if i < 0 {
            None
        } else {
            Some((self.entries@[i].1, self.entries@[i].2))
        }
    }

    pub closed spec fn duration_ms(self) -> u64 {
        self.duration_ms
    }

    /// A key counts as present at `now_ms` while its entry is fresh.
    pub open spec fn fresh_at(self, k: Seq<u8>, now_ms: u64) -> bool {
        match self.lookup(k) {
            Some((_v, at)) => now_ms >= at && now_ms - at <= self.duration_ms(),
            None => false,
        }
    }

    proof fn lemma_idx_of(s: Seq<(Vec<u8>, V, u64)>, k: Seq<u8>)
        ensures
            Self::idx_of(s, k) < 0 ==> forall|j: int| 0 <= j < s.len() ==> s[j].0@ != k,
            Self::idx_of(s, k) >= 0 ==> {
                &&& Self::idx_of(s, k) < s.len()
                &&& s[Self::idx_of(s, k)].0@ == k
            },
        decreases s.len(),
    {
        if s.len() > 0 && s[0].0@ != k {
            Self::lemma_idx_of(s.skip(1), k);
            if Self::idx_of(s.skip(1), k) < 0 {
                assert forall|j: int| 0 <= j < s.len() implies s[j].0@ != k by {
                    if j > 0 {
                        assert(s.skip(1)[j - 1] == s[j]);
                    }
                }
            } else {
                assert(s.skip(1)[Self::idx_of(s.skip(1), k)] == s[Self::idx_of(s, k)]);
            }
        }
    }

    pub fn new(duration_ms: u64) -> (r: TtlMap<V>)
        ensures
            r.duration_ms() == duration_ms,
            forall|k: Seq<u8>| r.lookup(k) == None::<(V, u64)>,
    {
        let r = TtlMap { duration_ms, entries: Vec::new() };
        proof {
            assert forall|k: Seq<u8>| r.lookup(k) == None::<(V, u64)> by {
                assert(r.entries@.len() == 0);
            }
        }
        r
    }

    fn find(&self, k: &Vec<u8>) -> (r: Option<usize>)
        ensures
            r matches Some(i) ==> i == Self::idx_of(self.entries@, k@),
            r is None ==> Self::idx_of(self.entries@, k@) < 0,
    {
        let ghost s = self.entries@;
        proof { assert(s.skip(0) =~= s); }
        let mut i: usize = 0;
        while i < self.entries.len()
            invariant
                s == self.entries@,
                0 <= i <= s.len(),
                forall|j: int| 0 <= j < i ==> s[j].0@ != k@,
                Self::idx_of(s, k@) >= i || Self::idx_of(s, k@) < 0,
                Self::idx_of(s, k@) >= 0 ==> Self::idx_of(s.skip(i as int), k@)
                    == Self::idx_of(s, k@) - i,
                Self::idx_of(s, k@) < 0 ==> Self::idx_of(s.skip(i as int), k@) < 0,
            decreases s.len() - i,
        {
            proof {
                assert(s.skip(i as int)[0] == s[i as int]);
                assert(s.skip(i as int).skip(1) =~= s.skip(i as int + 1));
            }
            if bytes_eq(&self.entries[i].0, k) {
                return Some(i);
            }
            i = i + 1;
        }
        proof {
            assert(s.skip(i as int).len() == 0);
            Self::lemma_idx_of(s, k@);
        }
        None
    }

    /// Stores `v` under `k` at time `now_ms`, replacing any earlier entry.
    pub fn set(&mut self, k: Vec<u8>, v: V, now_ms: u64)
        ensures
            final(self).duration_ms() == old(self).duration_ms(),
            final(self).lookup(k@) == Some((v, now_ms)),
            forall|k2: Seq<u8>| k2 != k@ ==> final(self).lookup(k2) == old(self).lookup(k2),
    {
        let ghost s = old(self).entries@;
        let found = self.find(&k);
        match found {
            Some(i) => {
                proof { Self::lemma_idx_of(s, k@); }
                self.entries.remove(i);
                self.entries.insert(i, (k, v, now_ms));
                proof {
                    let t = self.entries@;
                    assert(t =~= s.update(Self::idx_of(s, k@), t[Self::idx_of(s, k@)]));
                    Self::lemma_update_keeps_idx(s, Self::idx_of(s, k@), t[Self::idx_of(s, k@)]);
                    assert forall|k2: Seq<u8>| k2 != k@ implies self.lookup(k2) == old(
                        self,
                    ).lookup(k2) by {
                        Self::lemma_idx_of(s, k2);
                    }
                }
            },
            None => {
                self.entries.push((k, v, now_ms));
                proof {
                    let t = self.entries@;
                    Self::lemma_idx_of(s, k@);
                    Self::lemma_push_idx(s, t[s.len() as int]);
                    assert forall|k2: Seq<u8>| k2 != k@ implies self.lookup(k2) == old(
                        self,
                    ).lookup(k2) by {
                        Self::lemma_idx_of(s, k2);
                    }
                }
            },
        }
    }

    /// After updating position `i` with an entry of the same key, every
    /// lookup sees either the new entry (same key) or what it saw before.
    proof fn lemma_update_keeps_idx(s: Seq<(Vec<u8>, V, u64)>, i: int, e: (Vec<u8>, V, u64))
        requires
            0 <= i < s.len(),
            i == Self::idx_of(s, e.0@),
        ensures
            forall|k2: Seq<u8>| Self::idx_of(s.update(i, e), k2) == Self::idx_of(s, k2),
        decreases s.len(),
    {
        assert forall|k2: Seq<u8>| Self::idx_of(s.update(i, e), k2) == Self::idx_of(s, k2) by {
            Self::lemma_update_keeps_idx_one(s, i, e, k2);
        }
    }

    proof fn lemma_update_keeps_idx_one(
        s: Seq<(Vec<u8>, V, u64)>,
        i: int,
        e: (Vec<u8>, V, u64),
        k2: Seq<u8>,
    )
        requires
            0 <= i < s.len(),
            i == Self::idx_of(s, e.0@),
        ensures
            Self::idx_of(s.update(i, e), k2) == Self::idx_of(s, k2),
        decreases s.len(),
    {
        let t = s.update(i, e);
        if i == 0 {
            assert(s[0].0@ == e.0@);
            assert(t[0] == e);
            assert(t.skip(1) =~= s.skip(1));
        } else {
            assert(s[0].0@ != e.0@);
            assert(t[0] == s[0]);
            assert(t.skip(1) =~= s.skip(1).update(i - 1, e));
            assert(Self::idx_of(s.skip(1), e.0@) == i - 1);
            Self::lemma_update_keeps_idx_one(s.skip(1), i - 1, e, k2);
        }
    }

    /// Pushing a fresh key leaves other lookups alone and indexes the new
    /// entry at the end.
    proof fn lemma_push_idx(s: Seq<(Vec<u8>, V, u64)>, e: (Vec<u8>, V, u64))
        requires
            Self::idx_of(s, e.0@) < 0,
        ensures
            Self::idx_of(s.push(e), e.0@) == s.len(),
            forall|k2: Seq<u8>| k2 != e.0@ ==> Self::idx_of(s.push(e), k2) == Self::idx_of(s, k2),
    {
        assert forall|k2: Seq<u8>| k2 != e.0@ implies Self::idx_of(s.push(e), k2) == Self::idx_of(
            s,
            k2,
        ) by {
            Self::lemma_push_idx_one(s, e, k2);
        }
        Self::lemma_push_idx_self(s, e);
    }

    proof fn lemma_push_idx_self(s: Seq<(Vec<u8>, V, u64)>, e: (Vec<u8>, V, u64))
        requires Self::idx_of(s, e.0@) < 0,
        ensures Self::idx_of(s.push(e), e.0@) == s.len(),
        decreases s.len(),
    {
        if s.len() == 0 {
            assert(s.push(e)[0] == e);
        } else {
            assert(s.push(e)[0] == s[0]);
            assert(s[0].0@ != e.0@);
            assert(s.push(e).skip(1) =~= s.skip(1).push(e));
            Self::lemma_push_idx_self(s.skip(1), e);
        }
    }

    proof fn lemma_push_idx_one(s: Seq<(Vec<u8>, V, u64)>, e: (Vec<u8>, V, u64), k2: Seq<u8>)
        requires k2 != e.0@,
        ensures Self::idx_of(s.push(e), k2) == Self::idx_of(s, k2),
        decreases s.len(),
    {
        assert(Self::idx_of(Seq::<(Vec<u8>, V, u64)>::empty(), k2) == -1);
        if s.len() == 0 {
            assert(s =~= Seq::<(Vec<u8>, V, u64)>::empty());
            assert(s.push(e)[0] == e);
            assert(s.push(e).skip(1) =~= Seq::<(Vec<u8>, V, u64)>::empty());
        } else {
            assert(s.push(e)[0] == s[0]);
            assert(s.push(e).skip(1) =~= s.skip(1).push(e));
            Self::lemma_push_idx_one(s.skip(1), e, k2);
        }
    }

    /// Returns the stored value iff the entry for `k` is still fresh.
    pub fn get(&self, k: &Vec<u8>, now_ms: u64) -> (r: Option<V>)
        ensures
            r matches Some(v) ==> self.fresh_at(k@, now_ms) && (self.lookup(k@) matches Some(
                (v2, _),
            ) && v2 == v),
            r is None ==> !self.fresh_at(k@, now_ms),
    {
        let found = self.find(k);
        match found {
            Some(i) => {
                proof { Self::lemma_idx_of(self.entries@, k@); }
                let (_, v, at) = (&self.entries[i].0, self.entries[i].1, self.entries[i].2);
                if now_ms >= at && now_ms - at <= self.duration_ms {
                    Some(v)
                } else {
                    None
                }
            },
            None => None,
        }
    }
}

} // verus!
