//! Sliding-window event-rate estimator.
//!
//! A meter keeps the `(timestamp, value)` pairs of the events recorded during
//! the last `window_secs` seconds; older pairs are dropped on every call.
//! The rate is `value_sum * 60 / window_secs`, saturating at `u64::MAX`.
//! An optional read cache caps recomputation to once per cache interval;
//! between recomputes the last computed rate is returned unchanged.

use vstd::prelude::*;

verus! {

/// Largest accepted window or cache interval, in seconds (one week).
pub const MAX_WINDOW_SECS: u64 = 604_800;

/// Largest number of retained events; keeps value sums within bounds.
pub const MAX_EVENTS: usize = 0x4000_0000;

pub struct RateMeter {
    window_secs: u64,
    cache_ms: u64,
    entries: Vec<(u64, u64)>,
    cached_rate: u64,
    cached_at: u64,
    has_cached: bool,
}

/// Sum of the recorded values of a sequence of events.
pub open spec fn sum_values(s: Seq<(u64, u64)>) -> int
    decreases s.len(),
{
    if s.len() == 0 {
        0
    } else {
        s[0].1 + sum_values(s.skip(1))
    }
}

/// Timestamps are in nondecreasing order.
pub open spec fn sorted_by_time(s: Seq<(u64, u64)>) -> bool {
    forall|i: int, j: int| 0 <= i <= j < s.len() ==> s[i].0 <= s[j].0
}

/// Everything strictly older than `cutoff` dropped from the front.
pub open spec fn prune_spec(s: Seq<(u64, u64)>, cutoff: u64) -> Seq<(u64, u64)>
    decreases s.len(),
{
    if s.len() > 0 && s[0].0 < cutoff {
        prune_spec(s.skip(1), cutoff)
    } else {
        s
    }
}

/// Oldest instant still inside the window ending at `now_ms`.
pub open spec fn cutoff_spec(now_ms: u64, window_secs: u64) -> u64 {
    if now_ms >= window_secs * 1000 {
        (now_ms - window_secs * 1000) as u64
    } else {
        0
    }
}

/// The exact (unbounded) rate of a window's worth of events.
pub open spec fn rate_exact(s: Seq<(u64, u64)>, window_secs: u64) -> int
    recommends window_secs >= 1,
{
    sum_values(s) * 60 / (window_secs as int)
}

/// The rate as reported: saturating at `u64::MAX`.
pub open spec fn rate_of(s: Seq<(u64, u64)>, window_secs: u64) -> u64
    recommends window_secs >= 1,
{
    if rate_exact(s, window_secs) > u64::MAX {
        u64::MAX
    } else {
        rate_exact(s, window_secs) as u64
    }
}

proof fn lemma_sum_nonneg(s: Seq<(u64, u64)>)
    ensures sum_values(s) >= 0,
    decreases s.len(),
{
    if s.len() > 0 {
        lemma_sum_nonneg(s.skip(1));
    }
}

proof fn lemma_sum_bound(s: Seq<(u64, u64)>)
    ensures sum_values(s) <= s.len() * 0xffff_ffff_ffff_ffffu64,
    decreases s.len(),
{
    if s.len() == 0 {
    } else {
        lemma_sum_bound(s.skip(1));
        assert(s.skip(1).len() == s.len() - 1);
        vstd::arithmetic::mul::lemma_mul_inequality(
            s.skip(1).len() as int,
            s.len() as int,
            0xffff_ffff_ffff_ffffu64 as int,
        );
    }
}

proof fn lemma_prune_is_suffix(s: Seq<(u64, u64)>, cutoff: u64)
    ensures
        exists|k: int|
            0 <= k <= s.len() && prune_spec(s, cutoff) =~= s.skip(k),
    decreases s.len(),
{
    if s.len() > 0 && s[0].0 < cutoff {
        lemma_prune_is_suffix(s.skip(1), cutoff);
        let k0 = choose|k: int|
            0 <= k <= s.skip(1).len() && prune_spec(s.skip(1), cutoff) =~= s.skip(1).skip(k);
        assert(s.skip(1).skip(k0) =~= s.skip(k0 + 1));
        assert(prune_spec(s, cutoff) =~= s.skip(k0 + 1));
    } else {
        assert(prune_spec(s, cutoff) =~= s.skip(0));
    }
}

proof fn lemma_skip_props(s: Seq<(u64, u64)>, k: int)
    requires 0 <= k <= s.len(),
    ensures
        sum_values(s.skip(k)) <= sum_values(s),
        sorted_by_time(s) ==> sorted_by_time(s.skip(k)),
    decreases k,
{
    if k > 0 {
        assert(s.skip(1).skip(k - 1) =~= s.skip(k));
        lemma_skip_props(s.skip(1), k - 1);
        assert(sum_values(s) == s[0].1 + sum_values(s.skip(1)));
        lemma_sum_nonneg(s.skip(k));
        lemma_sum_nonneg(s.skip(1));
        if sorted_by_time(s) {
            assert forall|i: int, j: int| 0 <= i <= j < s.skip(1).len()
                implies s.skip(1)[i].0 <= s.skip(1)[j].0 by {
                assert(s.skip(1)[i] == s[i + 1]);
                assert(s.skip(1)[j] == s[j + 1]);
            }
        }
    } else {
        assert(s.skip(0) =~= s);
    }
}

/// A pruned sequence starts at or after the cutoff.
pub proof fn lemma_prune_head(s: Seq<(u64, u64)>, cutoff: u64)
    ensures
        prune_spec(s, cutoff).len() == 0 || prune_spec(s, cutoff)[0].0 >= cutoff,
    decreases s.len(),
{
    if s.len() > 0 && s[0].0 < cutoff {
        lemma_prune_head(s.skip(1), cutoff);
    }
}

/// The facts about a pruned sequence that the meter's methods need.
pub proof fn lemma_prune_props(s: Seq<(u64, u64)>, cutoff: u64)
    ensures
        prune_spec(s, cutoff).len() <= s.len(),
        sum_values(prune_spec(s, cutoff)) <= sum_values(s),
        sorted_by_time(s) ==> sorted_by_time(prune_spec(s, cutoff)),
        prune_spec(s, cutoff).len() > 0 ==> prune_spec(s, cutoff).last() == s.last(),
{
    lemma_prune_is_suffix(s, cutoff);
    let k = choose|k: int| 0 <= k <= s.len() && prune_spec(s, cutoff) =~= s.skip(k);
    lemma_skip_props(s, k);
    if prune_spec(s, cutoff).len() > 0 {
        assert(s.skip(k)[s.skip(k).len() - 1] == s[s.len() - 1]);
    }
}

impl RateMeter {
    /// Recorded events, oldest first.
    pub closed spec fn entries(self) -> Seq<(u64, u64)> {
        self.entries@
    }

    /// Window length in seconds.
    pub closed spec fn window_secs(self) -> u64 {
        self.window_secs
    }

    /// Read-cache interval in milliseconds; 0 means no cache.
    pub closed spec fn cache_ms(self) -> u64 {
        self.cache_ms
    }

    pub closed spec fn cached_rate(self) -> u64 {
        self.cached_rate
    }

    pub closed spec fn cached_at(self) -> u64 {
        self.cached_at
    }

    pub closed spec fn has_cached(self) -> bool {
        self.has_cached
    }

    pub closed spec fn wf(self) -> bool {
        &&& 1 <= self.window_secs <= MAX_WINDOW_SECS
        &&& self.cache_ms <= MAX_WINDOW_SECS * 1000
        &&& self.entries@.len() <= MAX_EVENTS
        &&& sorted_by_time(self.entries@)
    }

    /// A cached reading is served while it is younger than the cache interval.
    pub open spec fn cache_fresh(self, now_ms: u64) -> bool {
        self.cache_ms() > 0 && self.has_cached() && now_ms - self.cached_at() <= self.cache_ms()
    }

    /// What `speed` returns when called at `now_ms`.
    pub open spec fn speed_result(self, now_ms: u64) -> u64 {
        if self.cache_fresh(now_ms) {
            self.cached_rate()
        } else {
            rate_of(
                prune_spec(self.entries(), cutoff_spec(now_ms, self.window_secs())),
                self.window_secs(),
            )
        }
    }

    /// State change performed by `event(now_ms, value)`.
    pub open spec fn evented(self, post: RateMeter, now_ms: u64, value: u64) -> bool {
        &&& post.entries() == prune_spec(
            self.entries(),
            cutoff_spec(now_ms, self.window_secs()),
        ).push((now_ms, value))
        &&& post.window_secs() == self.window_secs()
        &&& post.cache_ms() == self.cache_ms()
        &&& post.cached_rate() == self.cached_rate()
        &&& post.cached_at() == self.cached_at()
        &&& post.has_cached() == self.has_cached()
    }

    /// The meter's clock inputs so far are all at or before `now_ms`.
    pub open spec fn ready_at(self, now_ms: u64) -> bool {
        &&& self.entries().len() > 0 ==> self.entries().last().0 <= now_ms
        &&& self.cached_at() <= now_ms
    }

    pub fn new(window_secs: u64) -> (r: RateMeter)
        requires 1 <= window_secs <= MAX_WINDOW_SECS,
        ensures
            r.wf(),
            r.entries() == Seq::<(u64, u64)>::empty(),
            r.window_secs() == window_secs,
            r.cache_ms() == 0,
            r.cached_at() == 0,
            !r.has_cached(),
    {
        let r = RateMeter {
            window_secs,
            cache_ms: 0,
            entries: Vec::new(),
            cached_rate: 0,
            cached_at: 0,
            has_cached: false,
        };
        proof { assert(r.entries@ =~= Seq::<(u64, u64)>::empty()); }
        r
    }

    pub fn new_with_cache(window_secs: u64, cache_secs: u64) -> (r: RateMeter)
        requires
            1 <= window_secs <= MAX_WINDOW_SECS,
            1 <= cache_secs <= MAX_WINDOW_SECS,
        ensures
            r.wf(),
            r.entries() == Seq::<(u64, u64)>::empty(),
            r.window_secs() == window_secs,
            r.cache_ms() == cache_secs * 1000,
            r.cached_at() == 0,
            !r.has_cached(),
    {
        let r = RateMeter {
            window_secs,
            cache_ms: cache_secs * 1000,
            entries: Vec::new(),
            cached_rate: 0,
            cached_at: 0,
            has_cached: false,
        };
        proof { assert(r.entries@ =~= Seq::<(u64, u64)>::empty()); }
        r
    }

    /// Drops every entry older than the window ending at `now_ms`.
    fn prune(&mut self, now_ms: u64)
        requires old(self).wf(),
        ensures
            final(self).wf(),
            final(self).entries@ == prune_spec(
                old(self).entries@,
                cutoff_spec(now_ms, old(self).window_secs),
            ),
            final(self).window_secs == old(self).window_secs,
            final(self).cache_ms == old(self).cache_ms,
            final(self).cached_rate == old(self).cached_rate,
            final(self).cached_at == old(self).cached_at,
            final(self).has_cached == old(self).has_cached,
    {
        let cutoff: u64 = if now_ms >= self.window_secs * 1000 {
            now_ms - self.window_secs * 1000
        } else {
            0
        };
        let ghost orig = self.entries@;
        while self.entries.len() > 0 && self.entries[0].0 < cutoff
            invariant
                prune_spec(self.entries@, cutoff) == prune_spec(orig, cutoff),
                self.entries@.len() <= orig.len(),
                sorted_by_time(orig) ==> sorted_by_time(self.entries@),
                self.window_secs == old(self).window_secs,
                self.cache_ms == old(self).cache_ms,
                self.cached_rate == old(self).cached_rate,
                self.cached_at == old(self).cached_at,
                self.has_cached == old(self).has_cached,
                sorted_by_time(orig),
                orig == old(self).entries@,
                orig.len() <= MAX_EVENTS,
                1 <= self.window_secs <= MAX_WINDOW_SECS,
                self.cache_ms <= MAX_WINDOW_SECS * 1000,
            decreases self.entries.len(),
        {
            let ghost before = self.entries@;
            self.entries.remove(0);
            proof {
                assert(self.entries@ =~= before.skip(1));
                lemma_skip_props(before, 1);
            }
        }
        proof {
            assert(prune_spec(self.entries@, cutoff) =~= self.entries@);
        }
    }

    /// Records a weighted event at `now_ms`, dropping entries that have left
    /// the window. Time must not run backwards between calls.
    pub fn event(&mut self, now_ms: u64, value: u64)
        requires
            old(self).wf(),
            old(self).entries().len() > 0 ==> old(self).entries().last().0 <= now_ms,
            old(self).entries().len() < MAX_EVENTS,
        ensures
            final(self).wf(),
            final(self).entries() == prune_spec(
                old(self).entries(),
                cutoff_spec(now_ms, old(self).window_secs()),
            ).push((now_ms, value)),
            final(self).window_secs() == old(self).window_secs(),
            final(self).cache_ms() == old(self).cache_ms(),
            final(self).cached_rate() == old(self).cached_rate(),
            final(self).cached_at() == old(self).cached_at(),
            final(self).has_cached() == old(self).has_cached(),
    {
        let ghost orig = self.entries@;
        self.prune(now_ms);
        proof {
            lemma_prune_props(orig, cutoff_spec(now_ms, self.window_secs));
        }
        self.entries.push((now_ms, value));
        proof {
            let pruned = prune_spec(orig, cutoff_spec(now_ms, self.window_secs));
            assert forall|i: int, j: int| 0 <= i <= j < self.entries@.len()
                implies self.entries@[i].0 <= self.entries@[j].0 by {
                if j < self.entries@.len() - 1 {
                    assert(self.entries@[i] == pruned[i]);
                    assert(self.entries@[j] == pruned[j]);
                } else if i < self.entries@.len() - 1 {
                    assert(self.entries@[i] == pruned[i]);
                    assert(pruned[i].0 <= pruned[pruned.len() - 1].0);
                    assert(pruned.last() == orig.last());
                }
            }
        }
    }

    /// Current rate. With a cache configured and fresh, returns the cached
    /// reading untouched; otherwise prunes, recomputes and refreshes the
    /// cache. Time must not run backwards between calls.
    pub fn speed(&mut self, now_ms: u64) -> (r: u64)
        requires
            old(self).wf(),
            old(self).entries().len() > 0 ==> old(self).entries().last().0 <= now_ms,
            old(self).cached_at() <= now_ms,
        ensures
            final(self).wf(),
            final(self).window_secs() == old(self).window_secs(),
            final(self).cache_ms() == old(self).cache_ms(),
            r == old(self).speed_result(now_ms),
            old(self).cache_fresh(now_ms) ==> *final(self) == *old(self),
            !old(self).cache_fresh(now_ms) ==> {
                &&& final(self).entries() == prune_spec(
                    old(self).entries(),
                    cutoff_spec(now_ms, old(self).window_secs()),
                )
                &&& final(self).cached_rate() == r
                &&& final(self).cached_at() == now_ms
                &&& final(self).has_cached()
            },
    {
        if self.cache_ms > 0 && self.has_cached && now_ms - self.cached_at <= self.cache_ms {
            return self.cached_rate;
        }
        let ghost orig = self.entries@;
        self.prune(now_ms);
        proof {
            lemma_prune_props(orig, cutoff_spec(now_ms, self.window_secs));
            lemma_sum_bound(self.entries@);
            lemma_sum_nonneg(self.entries@);
            vstd::arithmetic::mul::lemma_mul_inequality(
                self.entries@.len() as int,
                MAX_EVENTS as int,
                0xffff_ffff_ffff_ffffu64 as int,
            );
        }
        let mut acc: u128 = 0;
        let mut i: usize = 0;
        let n = self.entries.len();
        proof { assert(self.entries@.skip(0) =~= self.entries@); }
        while i < n
            invariant
                n == self.entries@.len(),
                0 <= i <= n,
                acc + sum_values(self.entries@.skip(i as int)) == sum_values(self.entries@),
                sum_values(self.entries@) <= MAX_EVENTS as int * 0xffff_ffff_ffff_ffffu64,
            decreases n - i,
        {
            proof {
                let s = self.entries@.skip(i as int);
                assert(s[0] == self.entries@[i as int]);
                assert(s.skip(1) =~= self.entries@.skip(i as int + 1));
                lemma_sum_nonneg(self.entries@.skip(i as int + 1));
            }
            acc = acc + self.entries[i].1 as u128;
            i = i + 1;
        }
        proof {
            assert(self.entries@.skip(n as int) =~= Seq::<(u64, u64)>::empty());
            assert(acc == sum_values(self.entries@));
        }
        let scaled: u128 = acc * 60 / (self.window_secs as u128);
        let r: u64 = if scaled > u64::MAX as u128 {
            u64::MAX
        } else {
            scaled as u64
        };
        proof {
            assert(scaled == rate_exact(self.entries@, self.window_secs));
            assert(r == rate_of(self.entries@, self.window_secs));
        }
        self.cached_rate = r;
        self.cached_at = now_ms;
        self.has_cached = true;
        r
    }
}

} // verus!
