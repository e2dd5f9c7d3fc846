//! PPLNS share accounting.
//!
//! A FIFO window `Q` of weighted shares whose weights sum to at most `N`.
//! New shares evict the oldest entries until the newcomer fits; block
//! credits aggregate the window per address and split the reward
//! proportionally; a TTL map makes a repeated block credit within ten
//! minutes a no-op.

use vstd::prelude::*;
use crate::ttlmap::TtlMap;

verus! {

/// How long a block hash is remembered for duplicate-credit rejection.
pub const BLOCK_DEDUP_MS: u64 = 600_000;

/// One accounted share in the PPLNS window.
pub struct ShareEntry {
    pub address: Vec<u8>,
    pub weight: u64,
    pub epoch_hash: Vec<u8>,
}

/// Ghost model of a share entry.
pub ghost struct ShareModel {
    pub address: Seq<u8>,
    pub weight: u64,
    pub epoch_hash: Seq<u8>,
}

impl View for ShareEntry {
    type V = ShareModel;

    open spec fn view(&self) -> ShareModel {
        ShareModel { address: self.address@, weight: self.weight, epoch_hash: self.epoch_hash@ }
    }
}

/// One payout row produced by a block credit.
pub struct Payout {
    pub address: Vec<u8>,
    pub amount: u64,
}

/// Messages understood by the accounting component.
pub enum AccountingMessage {
    /// An accepted share: payout address, weight, epoch hash.
    NewShare(Vec<u8>, u64, Vec<u8>),
    /// The PPLNS window size changed.
    SetN(u64),
    /// A block was found: block hash and its total reward.
    NewBlock(Vec<u8>, u64),
    Exit,
}

/// The models of a sequence of entries.
pub open spec fn models(s: Seq<ShareEntry>) -> Seq<ShareModel> {
    s.map_values(|e: ShareEntry| e@)
}

/// Total weight of a window.
pub open spec fn weights_sum(s: Seq<ShareModel>) -> int
    decreases s.len(),
{
    if s.len() == 0 {
        0
    } else {
        s[0].weight + weights_sum(s.skip(1))
    }
}

/// Total weight credited to one address.
pub open spec fn weight_of(s: Seq<ShareModel>, a: Seq<u8>) -> int
    decreases s.len(),
{
    if s.len() == 0 {
        0
    } else {
        (if s[0].address == a {
            s[0].weight as int
        } else {
            0
        }) + weight_of(s.skip(1), a)
    }
}

/// How many of the oldest entries must leave so that a new share of weight
/// `w` fits under `n`.
pub open spec fn evict_count(s: Seq<ShareModel>, n: u64, w: u64) -> int
    decreases s.len(),
{
    if weights_sum(s) + w <= n || s.len() == 0 {
        0
    } else {
        1 + evict_count(s.skip(1), n, w)
    }
}

/// How many of the oldest entries must leave so that the window fits under
/// a shrunken `n`.
pub open spec fn shrink_count(s: Seq<ShareModel>, n: u64) -> int
    decreases s.len(),
{
    if weights_sum(s) <= n || s.len() == 0 {
        0
    } else {
        1 + shrink_count(s.skip(1), n)
    }
}

pub proof fn lemma_weights_sum_nonneg(s: Seq<ShareModel>)
    ensures weights_sum(s) >= 0,
    decreases s.len(),
{
    if s.len() > 0 {
        lemma_weights_sum_nonneg(s.skip(1));
    }
}

pub proof fn lemma_weight_of_le_sum(s: Seq<ShareModel>, a: Seq<u8>)
    ensures 0 <= weight_of(s, a) <= weights_sum(s),
    decreases s.len(),
{
    if s.len() > 0 {
        lemma_weight_of_le_sum(s.skip(1), a);
    }
}

proof fn lemma_weight_of_push(s: Seq<ShareModel>, x: ShareModel, a: Seq<u8>)
    ensures
        weight_of(s.push(x), a) == weight_of(s, a) + (if x.address == a {
            x.weight as int
        } else {
            0
        }),
    decreases s.len(),
{
    if s.len() == 0 {
        assert(s =~= Seq::<ShareModel>::empty());
        assert(s.push(x)[0] == x);
        assert(s.push(x).skip(1) =~= Seq::<ShareModel>::empty());
        assert(weight_of(Seq::<ShareModel>::empty(), a) == 0);
    } else {
        assert(s.push(x)[0] == s[0]);
        assert(s.push(x).skip(1) =~= s.skip(1).push(x));
        lemma_weight_of_push(s.skip(1), x, a);
    }
}

/// What a block credit's payout rows must satisfy, relative to the window
/// it was computed from: one row per address, amounts proportional to the
/// address's weight in the window.
pub open spec fn payout_rows_ok(rows: Seq<Payout>, win: Seq<ShareModel>, reward: u64) -> bool {
    &&& forall|i: int, j: int| 0 <= i < j < rows.len() ==> rows[i].address@ != rows[j].address@
    &&& weights_sum(win) == 0 ==> rows.len() == 0
    &&& weights_sum(win) > 0 ==> forall|i: int|
        0 <= i < rows.len() ==> rows[i].amount as int == weight_of(win, rows[i].address@)
            * reward / weights_sum(win)
    &&& weights_sum(win) > 0 ==> forall|k: int|
        0 <= k < win.len() ==> exists|i: int|
            0 <= i < rows.len() && (#[trigger] rows[i].address@) == (#[trigger] win[k]).address
}

/// The PPLNS window.
pub struct PplnsQueue {
    entries: Vec<ShareEntry>,
    n: u64,
    sum: u64,
    recent_blocks: TtlMap<u64>,
}

impl PplnsQueue {
    /// The window contents, oldest first.
    pub closed spec fn window(self) -> Seq<ShareModel> {
        models(self.entries@)
    }

    /// The configured window size `N`.
    pub closed spec fn n(self) -> u64 {
        self.n
    }

    /// The map of recently credited block hashes.
    pub closed spec fn recent_blocks(self) -> TtlMap<u64> {
        self.recent_blocks
    }

    /// The cached sum equals the window's weight sum (and therefore fits
    /// in a `u64`).
    pub closed spec fn wf(self) -> bool {
        self.sum as int == weights_sum(self.window())
    }

    /// The PPLNS invariant proper: the window's weights sum to at most `N`.
    pub open spec fn within_n(self) -> bool {
        weights_sum(self.window()) <= self.n()
    }

    pub fn new(n: u64) -> (r: PplnsQueue)
        ensures
            r.wf(),
            r.within_n(),
            r.window() == Seq::<ShareModel>::empty(),
            r.n() == n,
            r.recent_blocks().duration_ms() == BLOCK_DEDUP_MS,
            forall|k: Seq<u8>| r.recent_blocks().lookup(k) == None::<(u64, u64)>,
    {
        let r = PplnsQueue {
            entries: Vec::new(),
            n,
            sum: 0,
            recent_blocks: TtlMap::new(BLOCK_DEDUP_MS),
        };
        proof {
            assert(r.entries@ =~= Seq::<ShareEntry>::empty());
            assert(r.window() =~= Seq::<ShareModel>::empty());
        }
        r
    }

    /// Appends a share, evicting oldest entries first until it fits.
    /// When the share's weight is within `N`, the window invariant holds
    /// afterwards; eviction is FIFO and exactly as large as needed.
    pub fn new_share(&mut self, entry: ShareEntry)
        requires old(self).wf(),
        ensures
            final(self).wf(),
            final(self).window() == old(self).window().skip(
                evict_count(old(self).window(), old(self).n(), entry.weight),
            ).push(entry@),
            final(self).n() == old(self).n(),
            final(self).recent_blocks() == old(self).recent_blocks(),
            entry.weight <= old(self).n() ==> final(self).within_n(),
    {
        let ghost orig = self.window();
        let w = entry.weight;
        proof {
            assert(self.window().skip(0) =~= self.window());
        }
        while (self.sum as u128) + (w as u128) > (self.n as u128) && self.entries.len() > 0
            invariant
                self.wf(),
                self.n == old(self).n,
                self.recent_blocks == old(self).recent_blocks,
                w == entry.weight,
                evict_count(self.window(), self.n, w) + (orig.len() - self.window().len())
                    == evict_count(orig, self.n, w),
                exists|k: int|
                    0 <= k <= orig.len() && self.window() =~= orig.skip(k)
                        && k == orig.len() - self.window().len(),
            decreases self.entries.len(),
        {
            let ghost pre = self.window();
            proof {
                assert(pre[0] == self.entries@[0]@);
                lemma_weights_sum_nonneg(pre.skip(1));
                assert(weights_sum(pre) == pre[0].weight + weights_sum(pre.skip(1)));
                assert(evict_count(pre, self.n, w) == 1 + evict_count(pre.skip(1), self.n, w));
            }
            let front = self.entries.remove(0);
            self.sum = self.sum - front.weight;
            proof {
                assert(self.entries@ =~= old(self).entries@.subrange(
                    0,
                    0,
                ) + self.entries@);
                assert(self.window() =~= pre.skip(1));
                let k0 = choose|k: int|
                    0 <= k <= orig.len() && pre =~= orig.skip(k) && k == orig.len() - pre.len();
                assert(orig.skip(k0).skip(1) =~= orig.skip(k0 + 1));
                assert(self.window() =~= orig.skip(k0 + 1));
            }
        }
        let ghost pre_push = self.window();
        proof {
            assert(evict_count(pre_push, self.n, w) == 0);
            assert(pre_push =~= orig.skip(evict_count(orig, self.n, w)));
            lemma_weights_sum_nonneg(pre_push);
            if self.entries.len() == 0 {
                assert(pre_push.len() == 0);
                assert(weights_sum(pre_push) == 0);
            }
        }
        self.sum = self.sum + w;
        self.entries.push(entry);
        proof {
            assert(self.window() =~= pre_push.push(entry@));
            lemma_weights_sum_push(pre_push, entry@);
        }
    }

    /// Replaces `N`, shrinking the window from the oldest end as needed.
    /// Afterwards the invariant holds for the new `N` unconditionally.
    pub fn set_n(&mut self, n: u64)
        requires old(self).wf(),
        ensures
            final(self).wf(),
            final(self).within_n(),
            final(self).n() == n,
            final(self).window() == old(self).window().skip(
                shrink_count(old(self).window(), n),
            ),
            final(self).recent_blocks() == old(self).recent_blocks(),
    {
        self.n = n;
        let ghost orig = self.window();
        proof {
            assert(self.window().skip(0) =~= self.window());
        }
        while self.sum > self.n && self.entries.len() > 0
            invariant
                self.wf(),
                self.n == n,
                self.recent_blocks == old(self).recent_blocks,
                shrink_count(self.window(), n) + (orig.len() - self.window().len())
                    == shrink_count(orig, n),
                exists|k: int|
                    0 <= k <= orig.len() && self.window() =~= orig.skip(k)
                        && k == orig.len() - self.window().len(),
            decreases self.entries.len(),
        {
            let ghost pre = self.window();
            proof {
                assert(pre[0] == self.entries@[0]@);
                lemma_weights_sum_nonneg(pre.skip(1));
                assert(weights_sum(pre) == pre[0].weight + weights_sum(pre.skip(1)));
                assert(shrink_count(pre, n) == 1 + shrink_count(pre.skip(1), n));
            }
            let front = self.entries.remove(0);
            self.sum = self.sum - front.weight;
            proof {
                assert(self.window() =~= pre.skip(1));
                let k0 = choose|k: int|
                    0 <= k <= orig.len() && pre =~= orig.skip(k) && k == orig.len() - pre.len();
                assert(orig.skip(k0).skip(1) =~= orig.skip(k0 + 1));
                assert(self.window() =~= orig.skip(k0 + 1));
            }
        }
        proof {
            assert(shrink_count(self.window(), n) == 0);
            assert(self.window() =~= orig.skip(shrink_count(orig, n)));
            lemma_weights_sum_nonneg(self.window());
            if self.entries.len() == 0 {
                assert(self.window().len() == 0);
            }
        }
    }

    /// Per-address totals of the current window: each address that occurs
    /// in the window appears exactly once, with the sum of its weights.
    pub fn aggregate(&self) -> (r: Vec<(Vec<u8>, u64)>)
        requires self.wf(),
        ensures
            forall|i: int, j: int| 0 <= i < j < r@.len() ==> r@[i].0@ != r@[j].0@,
            forall|i: int|
                0 <= i < r@.len() ==> r@[i].1 as int == weight_of(self.window(), r@[i].0@),
            forall|k: int|
                0 <= k < self.window().len() ==> exists|i: int|
                    0 <= i < r@.len() && (#[trigger] r@[i].0@) == (
                    #[trigger] self.window()[k]).address,
    {
        let ghost win = self.window();
        let mut r: Vec<(Vec<u8>, u64)> = Vec::new();
        let mut idx: usize = 0;
        proof {
            lemma_weights_sum_nonneg(win);
        }
        while idx < self.entries.len()
            invariant
                self.wf(),
                win == self.window(),
                0 <= idx <= win.len(),
                forall|i: int, j: int| 0 <= i < j < r@.len() ==> r@[i].0@ != r@[j].0@,
                forall|i: int|
                    0 <= i < r@.len() ==> r@[i].1 as int == weight_of(win.take(idx as int), r@[i].0@),
                forall|k: int|
                    0 <= k < idx ==> exists|i: int|
                        0 <= i < r@.len() && (#[trigger] r@[i].0@) == (
                        #[trigger] win[k]).address,
            decreases self.entries@.len() - idx,
        {
            let e_addr_w: u64 = self.entries[idx].weight;
            let ghost a = win[idx as int].address;
            proof {
                assert(win[idx as int] == self.entries@[idx as int]@);
            }
            let mut found: bool = false;
            let mut at: usize = 0;
            let mut j: usize = 0;
            while j < r.len()
                invariant
                    0 <= j <= r@.len(),
                    !found ==> forall|t: int|
                        0 <= t < j ==> r@[t].0@ != self.entries@[idx as int].address@,
                    found ==> at < r@.len()
                        && r@[at as int].0@ == self.entries@[idx as int].address@ && at < j,
                    idx < self.entries@.len(),
                decreases r@.len() - j,
            {
                if !found && crate::util::bytes_eq(&r[j].0, &self.entries[idx].address) {
                    found = true;
                    at = j;
                }
                j = j + 1;
            }
            let ghost r_pre = r@;
            proof {
                assert(win.take(idx as int).push(win[idx as int]) =~= win.take(idx as int + 1));
                lemma_weight_of_le_sum(win.take(idx as int + 1), a);
                lemma_weights_sum_take_le(win, idx as int + 1);
            }
            if found {
                let prev = r[at].1;
                proof {
                    assert(r_pre[at as int].0@ == a);
                    lemma_weight_of_push(win.take(idx as int), win[idx as int], a);
                    assert(prev + e_addr_w == weight_of(win.take(idx as int + 1), a));
                }
                let entry = r.remove(at);
                r.insert(at, (entry.0, prev + e_addr_w));
                proof {
                    assert(r@ =~= r_pre.update(at as int, r@[at as int]));
                    assert(r@[at as int].0@ == a);
                    assert forall|i: int| 0 <= i < r@.len() implies r@[i].1 as int == weight_of(
                        win.take(idx as int + 1),
                        r@[i].0@,
                    ) by {
                        lemma_weight_of_push(win.take(idx as int), win[idx as int], r@[i].0@);
                        if i != at {
                            assert(r@[i] == r_pre[i]);
                            assert(r@[i].0@ != a);
                        }
                    }
                    assert forall|k: int| 0 <= k < idx + 1 implies exists|i: int|
                        0 <= i < r@.len() && (#[trigger] r@[i].0@) == (
                        #[trigger] win[k]).address by {
                        if k == idx {
                            assert(r@[at as int].0@ == win[k].address);
                        } else {
                            let i0 = choose|i: int|
                                0 <= i < r_pre.len() && (#[trigger] r_pre[i].0@) == win[k].address;
                            assert(r@[i0].0@ == r_pre[i0].0@);
                        }
                    }
                }
            } else {
                let addr = self.entries[idx].address.clone();
                proof {
                    lemma_weight_of_push(win.take(idx as int), win[idx as int], a);
                    lemma_absent_weight_zero(win.take(idx as int), a, win);
                }
                r.push((addr, e_addr_w));
                proof {
                    assert(r@ =~= r_pre.push(r@[r_pre.len() as int]));
                    assert(r@[r_pre.len() as int].0@ == a);
                    assert forall|i: int| 0 <= i < r@.len() implies r@[i].1 as int == weight_of(
                        win.take(idx as int + 1),
                        r@[i].0@,
                    ) by {
                        lemma_weight_of_push(win.take(idx as int), win[idx as int], r@[i].0@);
                        if i < r@.len() - 1 {
                            assert(r@[i] == r_pre[i]);
                            assert(r@[i].0@ != a);
                        }
                    }
                    assert forall|k: int| 0 <= k < idx + 1 implies exists|i: int|
                        0 <= i < r@.len() && (#[trigger] r@[i].0@) == (
                        #[trigger] win[k]).address by {
                        if k == idx {
                            assert(r@[r_pre.len() as int].0@ == win[k].address);
                        } else {
                            let i0 = choose|i: int|
                                0 <= i < r_pre.len() && (#[trigger] r_pre[i].0@) == win[k].address;
                            assert(r@[i0].0@ == r_pre[i0].0@);
                        }
                    }
                }
            }
            idx = idx + 1;
        }
        proof {
            assert(win.take(win.len() as int) =~= win);
        }
        r
    }

    /// Credits a found block: splits `reward` over the window's addresses
    /// in proportion to their weights. A block hash already credited within
    /// the TTL is rejected and nothing changes. An empty window yields no
    /// payouts.
    #[verifier::rlimit(100)]
    #[verifier::spinoff_prover]
    pub fn new_block(&mut self, now_ms: u64, block_hash: Vec<u8>, reward: u64) -> (r: Option<
        Vec<Payout>,
    >)
        requires old(self).wf(),
        ensures
            final(self).wf(),
            final(self).window() == old(self).window(),
            final(self).n() == old(self).n(),
            final(self).recent_blocks().duration_ms() == old(self).recent_blocks().duration_ms(),
            old(self).recent_blocks().fresh_at(block_hash@, now_ms) ==> {
                &&& r is None
                &&& final(self).recent_blocks() == old(self).recent_blocks()
            },
            !old(self).recent_blocks().fresh_at(block_hash@, now_ms) ==> {
                &&& r is Some
                &&& final(self).recent_blocks().lookup(block_hash@) == Some((reward, now_ms))
                &&& forall|k2: Seq<u8>|
                    k2 != block_hash@ ==> final(self).recent_blocks().lookup(k2) == old(
                        self,
                    ).recent_blocks().lookup(k2)
            },
            r matches Some(rows) ==> payout_rows_ok(rows@, old(self).window(), reward),
    {
        if self.recent_blocks.get(&block_hash, now_ms).is_some() {
            return None;
        }
        self.recent_blocks.set(block_hash, reward, now_ms);
        let totals = self.aggregate();
        let mut rows: Vec<Payout> = Vec::new();
        let total_sum = self.sum;
        if total_sum == 0 {
            proof {
                assert(payout_rows_ok(rows@, old(self).window(), reward));
            }
            return Some(rows);
        }
        let mut i: usize = 0;
        while i < totals.len()
            invariant
                self.wf(),
                total_sum == self.sum,
                total_sum > 0,
                rows@.len() == i,
                0 <= i <= totals@.len(),
                forall|t: int, u: int| 0 <= t < u < totals@.len() ==> totals@[t].0@
                    != totals@[u].0@,
                forall|t: int|
                    0 <= t < totals@.len() ==> totals@[t].1 as int == weight_of(
                        self.window(),
                        totals@[t].0@,
                    ),
                forall|k: int|
                    0 <= k < self.window().len() ==> exists|t: int|
                        0 <= t < totals@.len() && (#[trigger] totals@[t].0@) == (
                        #[trigger] self.window()[k]).address,
                forall|t: int|
                    0 <= t < i ==> rows@[t].address@ == totals@[t].0@ && rows@[t].amount as int
                        == weight_of(self.window(), totals@[t].0@) * reward as int
                        / total_sum as int,
            decreases totals@.len() - i,
        {
            let w = totals[i].1;
            proof {
                lemma_weight_of_le_sum(self.window(), totals@[i as int].0@);
                assert((w as int) * (reward as int) / (total_sum as int) <= reward as int)
                    by (nonlinear_arith)
                    requires
                        0 < total_sum as int,
                        0 <= w as int <= total_sum as int,
                        0 <= reward as int,
                ;
                assert((w as int) * (reward as int) >= 0) by (nonlinear_arith)
                    requires 0 <= w as int && 0 <= reward as int;
            }
            proof {
                assert((w as int) * (reward as int)
                    <= 0xffff_ffff_ffff_ffffu64 * 0xffff_ffff_ffff_ffffu64) by (nonlinear_arith)
                    requires w <= 0xffff_ffff_ffff_ffffu64 && reward <= 0xffff_ffff_ffff_ffffu64;
            }
            let amount_wide: u128 = (w as u128) * (reward as u128) / (total_sum as u128);
            let amount: u64 = amount_wide as u64;
            let addr = totals[i].0.clone();
            rows.push(Payout { address: addr, amount });
            i = i + 1;
        }
        proof {
            assert(old(self).window() == self.window());
            assert forall|k: int| 0 <= k < old(self).window().len() implies exists|t: int|
                0 <= t < rows@.len() && (#[trigger] rows@[t].address@) == (
                #[trigger] old(self).window()[k]).address by {
                assert(old(self).window()[k] == self.window()[k]);
                let t0 = choose|t: int|
                    0 <= t < totals@.len() && (#[trigger] totals@[t].0@)
                        == self.window()[k].address;
                assert(rows@[t0].address@ == self.window()[k].address);
            }
            assert(payout_rows_ok(rows@, old(self).window(), reward));
        }
        Some(rows)
    }

    /// Dumps the window and `N` as ordered-KV pairs: one pair per entry,
    /// keyed by a zero byte and the big-endian insertion index, and a
    /// trailer keyed by a lone one byte carrying `N`.
    pub fn snapshot(&self) -> (kv: Vec<(Vec<u8>, Vec<u8>)>)
        requires
            self.wf(),
            forall|i: int|
                0 <= i < self.window().len() ==> crate::snapshot::entry_ok(
                    #[trigger] self.window()[i],
                ),
        ensures
            crate::snapshot::kv_models(kv@) == crate::snapshot::snapshot_spec(
                self.window(),
                self.n(),
            ),
    {
        let mut kv: Vec<(Vec<u8>, Vec<u8>)> = Vec::new();
        let m = self.entries.len();
        let mut i: usize = 0;
        while i < m
            invariant
                m == self.entries@.len(),
                self.wf(),
                forall|t: int|
                    0 <= t < self.window().len() ==> crate::snapshot::entry_ok(
                        #[trigger] self.window()[t],
                    ),
                0 <= i <= m,
                kv@.len() == i,
                forall|t: int|
                    0 <= t < i ==> (#[trigger] kv@[t]).0@ == seq![0u8] + crate::util::be64(
                        t as u64,
                    ) && kv@[t].1@ == crate::snapshot::enc_entry(self.window()[t]),
            decreases m - i,
        {
            let mut key: Vec<u8> = Vec::new();
            key.push(0);
            let idx = crate::util::u64_to_be(i as u64);
            crate::codec::append_bytes(&mut key, &idx);
            proof {
                assert(key@ =~= seq![0u8] + crate::util::be64(i as u64));
                assert(self.window()[i as int] == self.entries@[i as int]@);
            }
            let value = crate::snapshot::encode_entry(&self.entries[i]);
            kv.push((key, value));
            i = i + 1;
        }
        let mut tkey: Vec<u8> = Vec::new();
        tkey.push(1);
        let tval = crate::util::u64_to_be(self.n);
        kv.push((tkey, tval));
        proof {
            assert(tkey@ =~= seq![1u8]);
            assert(crate::snapshot::kv_models(kv@) =~= crate::snapshot::snapshot_spec(
                self.window(),
                self.n(),
            ));
        }
        kv
    }

    /// Rebuilds a queue from a snapshot. It succeeds on exactly the pair
    /// lists `snapshot` produces (for windows whose weights fit a `u64`),
    /// and returns a queue that re-snapshots to byte-identical contents.
    #[verifier::rlimit(100)]
    #[verifier::spinoff_prover]
    pub fn restore(kv: &Vec<(Vec<u8>, Vec<u8>)>) -> (r: Option<PplnsQueue>)
        ensures
            r matches Some(q) ==> {
                &&& q.wf()
                &&& q.recent_blocks().duration_ms() == BLOCK_DEDUP_MS
                &&& forall|k: Seq<u8>| q.recent_blocks().lookup(k) == None::<(u64, u64)>
                &&& crate::snapshot::kv_models(kv@) == crate::snapshot::snapshot_spec(
                    q.window(),
                    q.n(),
                )
                &&& forall|i: int|
                    0 <= i < q.window().len() ==> crate::snapshot::entry_ok(
                        #[trigger] q.window()[i],
                    )
            },
            forall|win: Seq<ShareModel>, n2: u64|
                (forall|i: int| 0 <= i < win.len() ==> crate::snapshot::entry_ok(
                    #[trigger] win[i],
                )) && weights_sum(win) <= u64::MAX && crate::snapshot::kv_models(kv@)
                    == crate::snapshot::snapshot_spec(win, n2) ==> r is Some,
    {
        let m = kv.len();
        if m == 0 {
            proof {
                assert forall|win: Seq<ShareModel>, n2: u64|
                    crate::snapshot::kv_models(kv@) != crate::snapshot::snapshot_spec(
                    win,
                    n2,
                ) by {
                    assert(crate::snapshot::kv_models(kv@).len() == 0);
                    assert(crate::snapshot::snapshot_spec(win, n2).len() == win.len() + 1);
                }
            }
            return None;
        }
        let mut one: Vec<u8> = Vec::new();
        one.push(1);
        proof {
            assert(one@ =~= seq![1u8]);
        }
        if !crate::util::bytes_eq(&kv[m - 1].0, &one) {
            proof {
                assert forall|win: Seq<ShareModel>, n2: u64|
                    crate::snapshot::kv_models(kv@) != crate::snapshot::snapshot_spec(
                    win,
                    n2,
                ) by {
                    if crate::snapshot::kv_models(kv@) == crate::snapshot::snapshot_spec(
                        win,
                        n2,
                    ) {
                        crate::snapshot::lemma_snapshot_index(kv@, win, n2, m - 1);
                    }
                }
            }
            return None;
        }
        if kv[m - 1].1.len() != 8 {
            proof {
                assert forall|win: Seq<ShareModel>, n2: u64|
                    crate::snapshot::kv_models(kv@) != crate::snapshot::snapshot_spec(
                    win,
                    n2,
                ) by {
                    if crate::snapshot::kv_models(kv@) == crate::snapshot::snapshot_spec(
                        win,
                        n2,
                    ) {
                        crate::snapshot::lemma_snapshot_index(kv@, win, n2, m - 1);
                    }
                }
            }
            return None;
        }
        let n = crate::util::u64_from_be(&kv[m - 1].1, 0);
        let mut entries: Vec<ShareEntry> = Vec::new();
        let mut sum: u64 = 0;
        let mut i: usize = 0;
        while i < m - 1
            invariant
                1 <= m == kv@.len(),
                0 <= i <= m - 1,
                entries@.len() == i,
                sum as int == weights_sum(models(entries@)),
                forall|t: int|
                    0 <= t < i ==> (#[trigger] kv@[t]).0@ == seq![0u8] + crate::util::be64(
                        t as u64,
                    ) && kv@[t].1@ == crate::snapshot::enc_entry(models(entries@)[t])
                        && crate::snapshot::entry_ok(models(entries@)[t]),
            decreases m - 1 - i,
        {
            let ghost pre_models = models(entries@);
            let mut key: Vec<u8> = Vec::new();
            key.push(0);
            let idx = crate::util::u64_to_be(i as u64);
            crate::codec::append_bytes(&mut key, &idx);
            proof {
                assert(key@ =~= seq![0u8] + crate::util::be64(i as u64));
            }
            if !crate::util::bytes_eq(&kv[i].0, &key) {
                proof {
                    assert forall|win: Seq<ShareModel>, n2: u64|
                        crate::snapshot::kv_models(kv@) != crate::snapshot::snapshot_spec(
                        win,
                        n2,
                    ) by {
                        if crate::snapshot::kv_models(kv@) == crate::snapshot::snapshot_spec(
                            win,
                            n2,
                        ) {
                            crate::snapshot::lemma_snapshot_index(kv@, win, n2, i as int);
                        }
                    }
                }
                return None;
            }
            let e = match crate::snapshot::decode_entry(&kv[i].1) {
                Some(e) => e,
                None => {
                    proof {
                        assert forall|win: Seq<ShareModel>, n2: u64|
                            !((forall|t: int| 0 <= t < win.len()
                                ==> crate::snapshot::entry_ok(#[trigger] win[t]))
                                && crate::snapshot::kv_models(kv@)
                                == crate::snapshot::snapshot_spec(win, n2)) by {
                            if (forall|t: int| 0 <= t < win.len()
                                ==> crate::snapshot::entry_ok(#[trigger] win[t]))
                                && crate::snapshot::kv_models(kv@)
                                == crate::snapshot::snapshot_spec(win, n2) {
                                crate::snapshot::lemma_snapshot_index(kv@, win, n2, i as int);
                                assert(crate::snapshot::entry_ok(win[i as int]));
                            }
                        }
                    }
                    return None;
                },
            };
            if e.weight > u64::MAX - sum {
                proof {
                    assert forall|win: Seq<ShareModel>, n2: u64|
                        !((forall|t: int| 0 <= t < win.len() ==> crate::snapshot::entry_ok(
                            #[trigger] win[t],
                        )) && weights_sum(win) <= u64::MAX && crate::snapshot::kv_models(kv@)
                            == crate::snapshot::snapshot_spec(win, n2)) by {
                        if (forall|t: int| 0 <= t < win.len() ==> crate::snapshot::entry_ok(
                            #[trigger] win[t],
                        )) && weights_sum(win) <= u64::MAX && crate::snapshot::kv_models(kv@)
                            == crate::snapshot::snapshot_spec(win, n2) {
                            crate::snapshot::lemma_snapshot_index(kv@, win, n2, 0);
                            assert(win.len() == m - 1);
                            assert(pre_models =~= win.take(i as int)) by {
                                assert forall|t: int| 0 <= t < i implies pre_models[t]
                                    == win[t] by {
                                    crate::snapshot::lemma_snapshot_index(kv@, win, n2, t);
                                    crate::snapshot::lemma_enc_entry_inj(pre_models[t], win[t]);
                                }
                            }
                            crate::snapshot::lemma_snapshot_index(kv@, win, n2, i as int);
                            crate::snapshot::lemma_enc_entry_inj(e@, win[i as int]);
                            lemma_weights_take_bound(win, i as int + 1);
                            assert(win.take(i as int + 1) =~= win.take(i as int).push(
                                win[i as int],
                            ));
                            lemma_weights_sum_push(win.take(i as int), win[i as int]);
                        }
                    }
                }
                return None;
            }
            sum = sum + e.weight;
            entries.push(e);
            proof {
                assert(models(entries@) =~= pre_models.push(entries@.last()@));
                lemma_weights_sum_push(pre_models, entries@.last()@);
                assert forall|t: int| 0 <= t < i + 1 implies (#[trigger] kv@[t]).0@ == seq![0u8]
                    + crate::util::be64(t as u64) && kv@[t].1@ == crate::snapshot::enc_entry(
                    models(entries@)[t],
                ) && crate::snapshot::entry_ok(models(entries@)[t]) by {
                    if t < i {
                        assert(models(entries@)[t] == pre_models[t]);
                    }
                }
            }
            i = i + 1;
        }
        let q = PplnsQueue { entries, n, sum, recent_blocks: TtlMap::new(BLOCK_DEDUP_MS) };
        proof {
            crate::snapshot::lemma_be64_self(kv@[m - 1].1@);
            assert(kv@[m - 1].1@.subrange(0, 8) =~= kv@[m - 1].1@);
            assert(crate::snapshot::be_of_sub(kv@[m - 1].1@) == crate::util::be64(n)) by {
                assert(crate::util::u64_of_be(kv@[m - 1].1@.subrange(0, 8)) == n);
            }
            assert forall|t: int| 0 <= t < q.window().len()
                implies crate::snapshot::entry_ok(#[trigger] q.window()[t]) by {
                assert((#[trigger] kv@[t]).1@ == crate::snapshot::enc_entry(
                    models(entries@)[t],
                ));
            }
            assert(crate::snapshot::kv_models(kv@) =~= crate::snapshot::snapshot_spec(
                q.window(),
                q.n(),
            )) by {
                assert(crate::snapshot::kv_models(kv@).len() == m);
                assert(crate::snapshot::snapshot_spec(q.window(), q.n()).len() == m);
                assert forall|t: int| 0 <= t < m
                    implies crate::snapshot::kv_models(kv@)[t]
                        == crate::snapshot::snapshot_spec(q.window(), q.n())[t] by {
                    assert(crate::snapshot::kv_models(kv@)[t] == (kv@[t].0@, kv@[t].1@));
                    if t < m - 1 {
                        assert(q.window()[t] == models(entries@)[t]);
                    } else {
                        assert(kv@[t].0@ == seq![1u8]);
                        assert(kv@[t].1@ == crate::util::be64(n));
                    }
                }
            }
        }
        Some(q)
    }
}

/// Weight sums of prefixes never exceed the whole.
proof fn lemma_weights_take_bound(s: Seq<ShareModel>, k: int)
    requires 0 <= k <= s.len(),
    ensures weights_sum(s.take(k)) <= weights_sum(s),
    decreases s.len() - k,
{
    if k == s.len() {
        assert(s.take(k) =~= s);
    } else {
        lemma_weights_take_bound(s, k + 1);
        assert(s.take(k + 1) =~= s.take(k).push(s[k]));
        lemma_weights_sum_push(s.take(k), s[k]);
    }
}

proof fn lemma_weights_sum_push(s: Seq<ShareModel>, x: ShareModel)
    ensures weights_sum(s.push(x)) == weights_sum(s) + x.weight,
    decreases s.len(),
{
    if s.len() == 0 {
        assert(s =~= Seq::<ShareModel>::empty());
        assert(s.push(x)[0] == x);
        assert(s.push(x).skip(1) =~= Seq::<ShareModel>::empty());
        assert(weights_sum(Seq::<ShareModel>::empty()) == 0);
    } else {
        assert(s.push(x)[0] == s[0]);
        assert(s.push(x).skip(1) =~= s.skip(1).push(x));
        lemma_weights_sum_push(s.skip(1), x);
    }
}

proof fn lemma_weights_sum_take_le(s: Seq<ShareModel>, k: int)
    requires 0 <= k <= s.len(),
    ensures weights_sum(s.take(k)) <= weights_sum(s),
    decreases s.len() - k,
{
    if k == s.len() {
        assert(s.take(k) =~= s);
    } else {
        lemma_weights_sum_take_le(s, k + 1);
        assert(s.take(k + 1) =~= s.take(k).push(s[k]));
        lemma_weights_sum_push(s.take(k), s[k]);
    }
}

proof fn lemma_weight_of_take_le_sum(s: Seq<ShareModel>, k: int)
    requires 0 <= k <= s.len(),
    ensures forall|a: Seq<u8>| weight_of(s.take(k), a) <= weights_sum(s),
{
    assert forall|a: Seq<u8>| weight_of(s.take(k), a) <= weights_sum(s) by {
        lemma_weight_of_le_sum(s.take(k), a);
        lemma_weights_sum_take_le(s, k);
    }
}

/// An address that never occurs in `t` has zero accumulated weight in it.
proof fn lemma_absent_weight_zero(t: Seq<ShareModel>, a: Seq<u8>, whole: Seq<ShareModel>)
    requires forall|k: int| 0 <= k < t.len() ==> t[k].address != a,
    ensures weight_of(t, a) == 0,
    decreases t.len(),
{
    if t.len() > 0 {
        assert forall|k: int| 0 <= k < t.skip(1).len() implies t.skip(1)[k].address != a by {
            assert(t.skip(1)[k] == t[k + 1]);
        }
        lemma_absent_weight_zero(t.skip(1), a, whole);
    }
}

} // verus!
