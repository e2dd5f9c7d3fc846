//! Per-prover and pool-wide difficulty targeting.
//!
//! A prover's share target follows its recent share rate: the candidate
//! `next_target` is `max(1, rate_2m * 20)`, so the expected inter-share time
//! stays near 20 seconds. The candidate is promoted to `current_target` only
//! when it deviates from it by strictly more than ten percent, which damps
//! oscillation. The pool applies a further multiplicative modifier, in units
//! of 1/200, that grows with the pool-wide share arrival rate.

use vstd::prelude::*;
use crate::meter::{RateMeter, rate_of, prune_spec, cutoff_spec, lemma_prune_head, MAX_EVENTS};

verus! {

/// Share target given to every fresh prover connection.
pub const INITIAL_TARGET: u64 = 512;

/// The pool modifier is a fraction with this fixed denominator.
pub const MODIFIER_DENOM: u64 = 200;

/// `max(1, rate * 20)`, saturating at `u64::MAX`.
pub open spec fn target_from_rate(rate: u64) -> u64 {
    if rate * 20 > u64::MAX {
        u64::MAX
    } else if rate * 20 < 1 {
        1
    } else {
        (rate * 20) as u64
    }
}

/// The candidate target is promoted only when it deviates from the current
/// one by strictly more than ten percent in either direction.
pub open spec fn promotes(current: u64, next: u64) -> bool {
    next * 10 < current * 9 || next * 10 > current * 11
}

/// `max(1, min(proof_target, prover_target * modifier_x200 / 200))`:
/// the target a prover is notified of during epoch fan-out.
pub open spec fn effective_target_spec(
    proof_target: u64,
    prover_target: u64,
    modifier_x200: u64,
) -> u64 {
    let modified = prover_target * modifier_x200 / (MODIFIER_DENOM as int);
    let capped = if modified > proof_target { proof_target as int } else { modified };
    if capped < 1 {
        1
    } else {
        capped as u64
    }
}

/// The exact state change `ProverState::add_share(now_ms, value)`
/// performs: every meter records the event, the candidate target is
/// recomputed from the 2-minute rate, and the applied target and address
/// stay as they were.
pub open spec fn share_recorded(pre: ProverState, post: ProverState, now_ms: u64, value: u64) -> bool {
    &&& post.speed_2m.entries() == prune_spec(
        pre.speed_2m.entries(),
        cutoff_spec(now_ms, 120),
    ).push((now_ms, value))
    &&& pre.speed_5m.evented(post.speed_5m, now_ms, value)
    &&& pre.speed_15m.evented(post.speed_15m, now_ms, value)
    &&& pre.speed_30m.evented(post.speed_30m, now_ms, value)
    &&& pre.speed_1h.evented(post.speed_1h, now_ms, value)
    &&& post.next_target == target_from_rate(rate_of(post.speed_2m.entries(), 120))
    &&& post.current_target == pre.current_target
    &&& post.address@ == pre.address@
}

/// The exact state change `PoolState::add_share(now_ms, value)` performs:
/// the 1-minute meter counts the share, the others record its weight, and
/// the candidate modifier is recomputed; the applied modifier stays.
pub open spec fn pool_share_recorded(pre: PoolState, post: PoolState, now_ms: u64, value: u64) -> bool {
    &&& post.speed_1m.entries() == prune_spec(
        pre.speed_1m.entries(),
        cutoff_spec(now_ms, 60),
    ).push((now_ms, 1))
    &&& pre.speed_5m.evented(post.speed_5m, now_ms, value)
    &&& pre.speed_15m.evented(post.speed_15m, now_ms, value)
    &&& pre.speed_30m.evented(post.speed_30m, now_ms, value)
    &&& pre.speed_1h.evented(post.speed_1h, now_ms, value)
    &&& post.next_modifier_x200 == (if rate_of(post.speed_1m.entries(), 60) > MODIFIER_DENOM {
        rate_of(post.speed_1m.entries(), 60)
    } else {
        MODIFIER_DENOM
    })
    &&& post.current_modifier_x200 == pre.current_modifier_x200
}

/// Difficulty state of one authenticated prover.
pub struct ProverState {
    /// Payout address the prover authorized with.
    pub address: Vec<u8>,
    /// Share rate over a 2-minute window; drives the target.
    pub speed_2m: RateMeter,
    pub speed_5m: RateMeter,
    pub speed_15m: RateMeter,
    pub speed_30m: RateMeter,
    pub speed_1h: RateMeter,
    /// Target in force for share verification.
    pub current_target: u64,
    /// Candidate target recomputed on every share.
    pub next_target: u64,
}

impl ProverState {
    pub open spec fn wf(self) -> bool {
        &&& self.speed_2m.wf() && self.speed_2m.window_secs() == 120
        &&& self.speed_2m.cache_ms() == 0
        &&& self.speed_5m.wf() && self.speed_5m.window_secs() == 300
        &&& self.speed_15m.wf() && self.speed_15m.window_secs() == 900
        &&& self.speed_30m.wf() && self.speed_30m.window_secs() == 1800
        &&& self.speed_1h.wf() && self.speed_1h.window_secs() == 3600
        &&& self.current_target >= 1
        &&& self.next_target >= 1
    }

    /// Every recorded instant is at or before `now_ms`.
    pub open spec fn ready_at(self, now_ms: u64) -> bool {
        &&& self.speed_2m.ready_at(now_ms)
        &&& self.speed_5m.ready_at(now_ms)
        &&& self.speed_15m.ready_at(now_ms)
        &&& self.speed_30m.ready_at(now_ms)
        &&& self.speed_1h.ready_at(now_ms)
    }

    pub open spec fn room_at(self) -> bool {
        &&& self.speed_2m.entries().len() < MAX_EVENTS
        &&& self.speed_5m.entries().len() < MAX_EVENTS
        &&& self.speed_15m.entries().len() < MAX_EVENTS
        &&& self.speed_30m.entries().len() < MAX_EVENTS
        &&& self.speed_1h.entries().len() < MAX_EVENTS
    }

    pub fn new(address: Vec<u8>) -> (r: ProverState)
        ensures
            r.wf(),
            r.address@ == address@,
            r.current_target == INITIAL_TARGET,
            r.next_target == INITIAL_TARGET,
            r.ready_at(0) && r.room_at(),
            r.speed_2m.entries().len() == 0,
    {
        ProverState {
            address,
            speed_2m: RateMeter::new(120),
            speed_5m: RateMeter::new_with_cache(300, 30),
            speed_15m: RateMeter::new_with_cache(900, 30),
            speed_30m: RateMeter::new_with_cache(1800, 30),
            speed_1h: RateMeter::new_with_cache(3600, 30),
            current_target: INITIAL_TARGET,
            next_target: INITIAL_TARGET,
        }
    }

    /// Records an accepted share of the given weight and recomputes the
    /// candidate target from the 2-minute rate. The current target is left
    /// alone; promotion happens in `next_target`.
    pub fn add_share(&mut self, now_ms: u64, value: u64)
        requires
            old(self).wf(),
            old(self).ready_at(now_ms),
            old(self).room_at(),
        ensures
            final(self).wf(),
            final(self).ready_at(now_ms),
            share_recorded(*old(self), *final(self), now_ms, value),
    {
        self.speed_2m.event(now_ms, value);
        self.speed_5m.event(now_ms, value);
        self.speed_15m.event(now_ms, value);
        self.speed_30m.event(now_ms, value);
        self.speed_1h.event(now_ms, value);
        proof {
            lemma_prune_head(old(self).speed_2m.entries(), cutoff_spec(now_ms, 120));
            // a second prune at the same instant removes nothing
            assert(prune_spec(self.speed_2m.entries(), cutoff_spec(now_ms, 120))
                == self.speed_2m.entries());
        }
        let rate = self.speed_2m.speed(now_ms);
        let next: u64 = if rate > u64::MAX / 20 {
            u64::MAX
        } else if rate == 0 {
            1
        } else {
            rate * 20
        };
        self.next_target = next;
    }

    /// Promotes the candidate target when it deviates by more than ten
    /// percent, and returns the target now in force.
    pub fn next_target(&mut self) -> (r: u64)
        requires old(self).wf(),
        ensures
            final(self).wf(),
            final(self).current_target == if promotes(
                old(self).current_target,
                old(self).next_target,
            ) {
                old(self).next_target
            } else {
                old(self).current_target
            },
            r == final(self).current_target,
            final(self).next_target == old(self).next_target,
            final(self).address@ == old(self).address@,
            final(self).speed_2m == old(self).speed_2m,
            final(self).speed_5m == old(self).speed_5m,
            final(self).speed_15m == old(self).speed_15m,
            final(self).speed_30m == old(self).speed_30m,
            final(self).speed_1h == old(self).speed_1h,
    {
        let next = self.next_target as u128;
        let cur = self.current_target as u128;
        if next * 10 < cur * 9 || next * 10 > cur * 11 {
            self.current_target = self.next_target;
        }
        self.current_target
    }

    /// Target in force for share verification.
    pub fn current_target(&self) -> (r: u64)
        ensures r == self.current_target,
    {
        self.current_target
    }

    /// Rates over the 5m/15m/30m/1h windows, for reporting.
    pub fn speed(&mut self, now_ms: u64) -> (r: Vec<u64>)
        requires
            old(self).wf(),
            old(self).ready_at(now_ms),
        ensures
            final(self).wf(),
            final(self).ready_at(now_ms),
            r@.len() == 4,
            r@[0] == old(self).speed_5m.speed_result(now_ms),
            r@[1] == old(self).speed_15m.speed_result(now_ms),
            r@[2] == old(self).speed_30m.speed_result(now_ms),
            r@[3] == old(self).speed_1h.speed_result(now_ms),
            final(self).current_target == old(self).current_target,
            final(self).next_target == old(self).next_target,
            final(self).address@ == old(self).address@,
    {
        proof {
            crate::meter::lemma_prune_props(self.speed_5m.entries(), cutoff_spec(now_ms, 300));
            crate::meter::lemma_prune_props(self.speed_15m.entries(), cutoff_spec(now_ms, 900));
            crate::meter::lemma_prune_props(self.speed_30m.entries(), cutoff_spec(now_ms, 1800));
            crate::meter::lemma_prune_props(self.speed_1h.entries(), cutoff_spec(now_ms, 3600));
        }
        let mut r: Vec<u64> = Vec::new();
        let a = self.speed_5m.speed(now_ms);
        let b = self.speed_15m.speed(now_ms);
        let c = self.speed_30m.speed(now_ms);
        let d = self.speed_1h.speed(now_ms);
        r.push(a);
        r.push(b);
        r.push(c);
        r.push(d);
        r
    }
}

/// Pool-wide rate state and the global target modifier.
pub struct PoolState {
    /// Share count rate over one minute; drives the modifier.
    pub speed_1m: RateMeter,
    pub speed_5m: RateMeter,
    pub speed_15m: RateMeter,
    pub speed_30m: RateMeter,
    pub speed_1h: RateMeter,
    /// Modifier in force, in units of 1/200; at least 200 (that is, 1.0).
    pub current_modifier_x200: u64,
    /// Candidate modifier recomputed on every share.
    pub next_modifier_x200: u64,
}

impl PoolState {
    pub open spec fn wf(self) -> bool {
        &&& self.speed_1m.wf() && self.speed_1m.window_secs() == 60
        &&& self.speed_1m.cache_ms() == 0
        &&& self.speed_5m.wf() && self.speed_5m.window_secs() == 300
        &&& self.speed_15m.wf() && self.speed_15m.window_secs() == 900
        &&& self.speed_30m.wf() && self.speed_30m.window_secs() == 1800
        &&& self.speed_1h.wf() && self.speed_1h.window_secs() == 3600
        &&& self.current_modifier_x200 >= MODIFIER_DENOM
        &&& self.next_modifier_x200 >= MODIFIER_DENOM
    }

    pub open spec fn ready_at(self, now_ms: u64) -> bool {
        &&& self.speed_1m.ready_at(now_ms)
        &&& self.speed_5m.ready_at(now_ms)
        &&& self.speed_15m.ready_at(now_ms)
        &&& self.speed_30m.ready_at(now_ms)
        &&& self.speed_1h.ready_at(now_ms)
    }

    pub open spec fn room_at(self) -> bool {
        &&& self.speed_1m.entries().len() < MAX_EVENTS
        &&& self.speed_5m.entries().len() < MAX_EVENTS
        &&& self.speed_15m.entries().len() < MAX_EVENTS
        &&& self.speed_30m.entries().len() < MAX_EVENTS
        &&& self.speed_1h.entries().len() < MAX_EVENTS
    }

    pub fn new() -> (r: PoolState)
        ensures
            r.wf(),
            r.current_modifier_x200 == MODIFIER_DENOM,
            r.next_modifier_x200 == MODIFIER_DENOM,
            r.ready_at(0) && r.room_at(),
    {
        PoolState {
            speed_1m: RateMeter::new(60),
            speed_5m: RateMeter::new_with_cache(300, 30),
            speed_15m: RateMeter::new_with_cache(900, 30),
            speed_30m: RateMeter::new_with_cache(1800, 30),
            speed_1h: RateMeter::new_with_cache(3600, 30),
            current_modifier_x200: MODIFIER_DENOM,
            next_modifier_x200: MODIFIER_DENOM,
        }
    }

    /// Records one accepted share of the given weight; the 1-minute meter
    /// counts shares rather than weight. Recomputes the candidate modifier
    /// as `max(1, shares_per_minute / 200)`, kept in units of 1/200.
    pub fn add_share(&mut self, now_ms: u64, value: u64)
        requires
            old(self).wf(),
            old(self).ready_at(now_ms),
            old(self).room_at(),
        ensures
            final(self).wf(),
            final(self).ready_at(now_ms),
            pool_share_recorded(*old(self), *final(self), now_ms, value),
    {
        self.speed_1m.event(now_ms, 1);
        self.speed_5m.event(now_ms, value);
        self.speed_15m.event(now_ms, value);
        self.speed_30m.event(now_ms, value);
        self.speed_1h.event(now_ms, value);
        proof {
            lemma_prune_head(old(self).speed_1m.entries(), cutoff_spec(now_ms, 60));
            assert(prune_spec(self.speed_1m.entries(), cutoff_spec(now_ms, 60))
                == self.speed_1m.entries());
        }
        let rate = self.speed_1m.speed(now_ms);
        self.next_modifier_x200 = if rate > MODIFIER_DENOM { rate } else { MODIFIER_DENOM };
    }

    /// Promotes the candidate modifier (no hysteresis pool-wide) and returns
    /// the modifier now in force, in units of 1/200.
    pub fn next_global_target_modifier(&mut self) -> (r: u64)
        requires old(self).wf(),
        ensures
            final(self).wf(),
            final(self).current_modifier_x200 == old(self).next_modifier_x200,
            final(self).next_modifier_x200 == old(self).next_modifier_x200,
            r == final(self).current_modifier_x200,
            final(self).speed_1m == old(self).speed_1m,
            final(self).speed_5m == old(self).speed_5m,
            final(self).speed_15m == old(self).speed_15m,
            final(self).speed_30m == old(self).speed_30m,
            final(self).speed_1h == old(self).speed_1h,
    {
        self.current_modifier_x200 = self.next_modifier_x200;
        self.current_modifier_x200
    }

    /// Modifier in force, in units of 1/200.
    pub fn current_global_target_modifier(&self) -> (r: u64)
        ensures r == self.current_modifier_x200,
    {
        self.current_modifier_x200
    }
}

/// The target sent to a prover on fan-out: its own current target scaled by
/// the pool modifier, capped at the epoch's proof target, and at least 1.
pub fn effective_target(proof_target: u64, prover_target: u64, modifier_x200: u64) -> (r: u64)
    ensures r == effective_target_spec(proof_target, prover_target, modifier_x200),
{
    proof {
        assert((prover_target as int) * (modifier_x200 as int)
            <= 0xffff_ffff_ffff_ffffu64 * 0xffff_ffff_ffff_ffffu64) by (nonlinear_arith)
            requires prover_target <= 0xffff_ffff_ffff_ffffu64
                && modifier_x200 <= 0xffff_ffff_ffff_ffffu64;
    }
    let modified: u128 = (prover_target as u128) * (modifier_x200 as u128)
        / (MODIFIER_DENOM as u128);
    let capped: u128 = if modified > proof_target as u128 {
        proof_target as u128
    } else {
        modified
    };
    if capped < 1 {
        1
    } else {
        capped as u64
    }
}

} // verus!
