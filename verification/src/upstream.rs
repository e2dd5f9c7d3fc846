//! Upstream-node session state machine.
//!
//! A persistent client connection to the consensus node: handshake by
//! challenge and signature check, five-second pings, fifteen-second puzzle
//! requests with a pending-solution flush, reconnect after errors or
//! silence. Solutions submitted while the session is down queue up and
//! are replayed in order.

use vstd::prelude::*;
use crate::server::SolutionRecord;
use crate::IDLE_TIMEOUT_MS;

verus! {

/// Milliseconds between reconnect attempts.
pub const RECONNECT_DELAY_MS: u64 = 5_000;

#[derive(PartialEq, Eq, Structural, Debug, Clone, Copy)]
pub enum UpstreamPhase {
    Disconnected,
    Connecting,
    ChallengeSent,
    ChallengeVerified,
    Active,
}

/// What the session asks its runtime to do.
pub enum UpstreamAction {
    /// Open the TCP connection.
    Dial,
    /// Send a challenge request carrying this fresh nonce.
    SendChallenge(u64),
    /// Send our response to the peer's challenge.
    SendChallengeResponse,
    /// Send a ping.
    SendPing,
    /// Send a puzzle request.
    SendPuzzleRequest,
    /// Send one solution.
    SendSolution(SolutionRecord),
    /// Tear the connection down and dial again after the reconnect delay.
    Reconnect,
}

pub struct UpstreamSession {
    pub phase: UpstreamPhase,
    /// When the last inbound message arrived.
    pub last_inbound_ms: u64,
    /// The nonce sent with our challenge, checked against the peer's
    /// signature.
    pub our_nonce: u64,
    /// Solutions waiting for an active session, oldest first.
    pub pending: Vec<SolutionRecord>,
}

impl UpstreamSession {
    pub fn new() -> (r: UpstreamSession)
        ensures
            r.phase == UpstreamPhase::Disconnected,
            r.pending@.len() == 0,
            r.last_inbound_ms == 0,
    {
        UpstreamSession {
            phase: UpstreamPhase::Disconnected,
            last_inbound_ms: 0,
            our_nonce: 0,
            pending: Vec::new(),
        }
    }

    /// Begins a connection attempt.
    pub fn connect(&mut self) -> (r: Option<UpstreamAction>)
        ensures
            old(self).phase == UpstreamPhase::Disconnected ==> {
                &&& final(self).phase == UpstreamPhase::Connecting
                &&& r == Some(UpstreamAction::Dial)
            },
            old(self).phase != UpstreamPhase::Disconnected ==> {
                &&& *final(self) == *old(self)
                &&& r is None
            },
            final(self).pending@ == old(self).pending@,
    {
        if matches!(self.phase, UpstreamPhase::Disconnected) {
            self.phase = UpstreamPhase::Connecting;
            Some(UpstreamAction::Dial)
        } else {
            None
        }
    }

    /// The TCP connection is up: send our challenge with a fresh nonce
    /// (drawn by the caller).
    pub fn on_connected(&mut self, now_ms: u64, nonce: u64) -> (r: Option<UpstreamAction>)
        ensures
            old(self).phase == UpstreamPhase::Connecting ==> {
                &&& final(self).phase == UpstreamPhase::ChallengeSent
                &&& final(self).our_nonce == nonce
                &&& final(self).last_inbound_ms == now_ms
                &&& r == Some(UpstreamAction::SendChallenge(nonce))
            },
            old(self).phase != UpstreamPhase::Connecting ==> {
                &&& *final(self) == *old(self)
                &&& r is None
            },
            final(self).pending@ == old(self).pending@,
    {
        if matches!(self.phase, UpstreamPhase::Connecting) {
            self.phase = UpstreamPhase::ChallengeSent;
            self.our_nonce = nonce;
            self.last_inbound_ms = now_ms;
            Some(UpstreamAction::SendChallenge(nonce))
        } else {
            None
        }
    }

    /// The peer answered our challenge. The caller verifies the signature
    /// over our nonce and address against the expected peer address from
    /// the genesis header, and passes the outcome in.
    pub fn on_challenge_response(&mut self, now_ms: u64, signature_ok: bool) -> (r: Option<
        UpstreamAction,
    >)
        ensures
            old(self).phase == UpstreamPhase::ChallengeSent && signature_ok ==> {
                &&& final(self).phase == UpstreamPhase::ChallengeVerified
                &&& final(self).last_inbound_ms == now_ms
                &&& r == Some(UpstreamAction::SendChallengeResponse)
            },
            old(self).phase == UpstreamPhase::ChallengeSent && !signature_ok ==> {
                &&& final(self).phase == UpstreamPhase::Disconnected
                &&& r == Some(UpstreamAction::Reconnect)
            },
            old(self).phase != UpstreamPhase::ChallengeSent ==> {
                &&& *final(self) == *old(self)
                &&& r is None
            },
            final(self).pending@ == old(self).pending@,
    {
        if matches!(self.phase, UpstreamPhase::ChallengeSent) {
            if signature_ok {
                self.phase = UpstreamPhase::ChallengeVerified;
                self.last_inbound_ms = now_ms;
                Some(UpstreamAction::SendChallengeResponse)
            } else {
                self.phase = UpstreamPhase::Disconnected;
                Some(UpstreamAction::Reconnect)
            }
        } else {
            None
        }
    }

    /// The handshake concluded; the session is live.
    pub fn on_handshake_complete(&mut self, now_ms: u64)
        ensures
            old(self).phase == UpstreamPhase::ChallengeVerified ==> {
                &&& final(self).phase == UpstreamPhase::Active
                &&& final(self).last_inbound_ms == now_ms
            },
            old(self).phase != UpstreamPhase::ChallengeVerified ==> *final(self) == *old(self),
            final(self).pending@ == old(self).pending@,
    {
        if matches!(self.phase, UpstreamPhase::ChallengeVerified) {
            self.phase = UpstreamPhase::Active;
            self.last_inbound_ms = now_ms;
        }
    }

    /// The five-second ticker: ping while active.
    pub fn on_ping_tick(&self) -> (r: Option<UpstreamAction>)
        ensures
            self.phase == UpstreamPhase::Active ==> r == Some(UpstreamAction::SendPing),
            self.phase != UpstreamPhase::Active ==> r is None,
    {
        if matches!(self.phase, UpstreamPhase::Active) {
            Some(UpstreamAction::SendPing)
        } else {
            None
        }
    }

    /// The fifteen-second ticker: request a puzzle and flush the pending
    /// solutions, oldest first. The caller sends each one and reports the
    /// failures back through `on_send_failures`.
    pub fn on_puzzle_tick(&mut self) -> (r: Vec<UpstreamAction>)
        ensures
            old(self).phase == UpstreamPhase::Active ==> {
                &&& final(self).pending@.len() == 0
                &&& r@.len() == 1 + old(self).pending@.len()
                &&& r@[0] == UpstreamAction::SendPuzzleRequest
                &&& forall|i: int|
                    0 <= i < old(self).pending@.len() ==> r@[i + 1]
                        == UpstreamAction::SendSolution(old(self).pending@[i])
            },
            old(self).phase != UpstreamPhase::Active ==> {
                &&& *final(self) == *old(self)
                &&& r@.len() == 0
            },
            final(self).phase == old(self).phase,
            final(self).last_inbound_ms == old(self).last_inbound_ms,
    {
        let mut r: Vec<UpstreamAction> = Vec::new();
        if !matches!(self.phase, UpstreamPhase::Active) {
            return r;
        }
        r.push(UpstreamAction::SendPuzzleRequest);
        let ghost orig = self.pending@;
        let n0: usize = self.pending.len();
        let mut i: usize = 0;
        proof {
            assert(orig.skip(0) =~= orig);
        }
        while self.pending.len() > 0
            invariant
                0 <= i <= orig.len(),
                n0 == orig.len(),
                r@.len() == 1 + i,
                r@[0] == UpstreamAction::SendPuzzleRequest,
                forall|t: int|
                    0 <= t < i ==> r@[t + 1] == UpstreamAction::SendSolution(orig[t]),
                self.pending@ == orig.skip(i as int),
                self.phase == old(self).phase,
                self.last_inbound_ms == old(self).last_inbound_ms,
                self.our_nonce == old(self).our_nonce,
                orig == old(self).pending@,
            decreases self.pending@.len(),
        {
            let ghost pre = self.pending@;
            let sol = self.pending.remove(0);
            proof {
                assert(sol == orig[i as int]) by {
                    assert(pre[0] == orig.skip(i as int)[0]);
                }
                assert(self.pending@ =~= pre.skip(1));
                assert(pre.skip(1) =~= orig.skip(i as int + 1));
            }
            r.push(UpstreamAction::SendSolution(sol));
            i = i + 1;
        }
        proof {
            assert(self.pending@.len() == 0);
            assert(i == orig.len());
        }
        r
    }

    /// Re-queues solutions whose sends failed, in their original order.
    pub fn on_send_failures(&mut self, failed: Vec<SolutionRecord>)
        requires old(self).pending@.len() == 0,
        ensures
            final(self).pending@ == failed@,
            final(self).phase == old(self).phase,
            final(self).last_inbound_ms == old(self).last_inbound_ms,
    {
        self.pending = failed;
    }

    /// Queues or sends a solution: while the session is active and the
    /// outbound mailbox has room (reported by the caller), it is sent
    /// directly and bypasses the buffer; otherwise it is queued in order.
    pub fn submit_solution(&mut self, sol: SolutionRecord, mailbox_full: bool) -> (r: Option<
        UpstreamAction,
    >)
        ensures
            (old(self).phase == UpstreamPhase::Active && !mailbox_full) ==> {
                &&& (r matches Some(a) && a matches UpstreamAction::SendSolution(s2) && s2 == sol)
                &&& final(self).pending@ == old(self).pending@
            },
            !(old(self).phase == UpstreamPhase::Active && !mailbox_full) ==> {
                &&& r is None
                &&& final(self).pending@.len() == old(self).pending@.len() + 1
                &&& final(self).pending@ == old(self).pending@.push(sol)
            },
            final(self).phase == old(self).phase,
            final(self).last_inbound_ms == old(self).last_inbound_ms,
    {
        if matches!(self.phase, UpstreamPhase::Active) && !mailbox_full {
            Some(UpstreamAction::SendSolution(sol))
        } else {
            self.pending.push(sol);
            None
        }
    }

    /// An inbound pong keeps the session alive.
    pub fn on_pong(&mut self, now_ms: u64)
        ensures
            final(self).last_inbound_ms == now_ms,
            final(self).phase == old(self).phase,
            final(self).pending@ == old(self).pending@,
    {
        self.last_inbound_ms = now_ms;
    }

    /// An inbound puzzle response: refresh the liveness clock; the caller
    /// forwards the epoch to the server as a new-epoch event.
    pub fn on_puzzle_response(&mut self, now_ms: u64)
        ensures
            final(self).last_inbound_ms == now_ms,
            final(self).phase == old(self).phase,
            final(self).pending@ == old(self).pending@,
    {
        self.last_inbound_ms = now_ms;
    }

    /// Tears the session down after an I/O error or decode failure.
    pub fn on_io_error(&mut self) -> (r: UpstreamAction)
        ensures
            final(self).phase == UpstreamPhase::Disconnected,
            r == UpstreamAction::Reconnect,
            final(self).pending@ == old(self).pending@,
    {
        self.phase = UpstreamPhase::Disconnected;
        UpstreamAction::Reconnect
    }

    /// Reconnects when the peer has been silent too long.
    pub fn check_timeout(&mut self, now_ms: u64) -> (r: Option<UpstreamAction>)
        requires old(self).last_inbound_ms <= now_ms,
        ensures
            (old(self).phase == UpstreamPhase::Active && now_ms - old(self).last_inbound_ms
                > IDLE_TIMEOUT_MS) ==> {
                &&& final(self).phase == UpstreamPhase::Disconnected
                &&& r == Some(UpstreamAction::Reconnect)
            },
            !(old(self).phase == UpstreamPhase::Active && now_ms - old(self).last_inbound_ms
                > IDLE_TIMEOUT_MS) ==> {
                &&& *final(self) == *old(self)
                &&& r is None
            },
            final(self).pending@ == old(self).pending@,
    {
        if matches!(self.phase, UpstreamPhase::Active) && now_ms - self.last_inbound_ms
            > IDLE_TIMEOUT_MS {
            self.phase = UpstreamPhase::Disconnected;
            Some(UpstreamAction::Reconnect)
        } else {
            None
        }
    }
}

} // verus!
