//! Pool server core: connection registries, epoch fan-out, share ingest
//! with nonce dedup, and the hooks into targeting and accounting.
//!
//! The server is a state machine: events arrive as method calls carrying
//! plain values (the current time, a decoded message, the outcome of the
//! puzzle-verification oracle) and return the actions the surrounding
//! runtime must perform (messages to send, accounting records, upstream
//! submissions). Registry consistency is part of `wf`: the authenticated
//! set and the prover-state table hold exactly the same peers, and the
//! per-address connection lists agree with each prover's own address.

use vstd::prelude::*;
use crate::message::{StratumMessage, ResponseParams, ErrorObject};
use crate::message::{ERR_UNAUTHORIZED, ERR_STALE_SHARE, ERR_INVALID_PROOF, ERR_DUPLICATE_SHARE};
use crate::pplns::AccountingMessage;
use crate::targeting::{ProverState, PoolState, effective_target, effective_target_spec, promotes,
    share_recorded, pool_share_recorded};
use crate::util::{bytes_eq, copy_bytes, encode_hex, u32_to_be, hex_of_bytes, be32};

verus! {

/// A full solution forwarded to the upstream node.
pub struct SolutionRecord {
    pub address: Vec<u8>,
    pub nonce: u64,
    pub epoch_hash: Vec<u8>,
}

/// What the caller must do after a server step.
pub enum ServerAction {
    /// Send a Stratum message to the peer with this id.
    Send(u64, StratumMessage),
    /// Forward a record to the accounting component.
    Account(AccountingMessage),
    /// Forward a solution to the upstream-node session.
    Upstream(SolutionRecord),
}

/// Outcome of the checks that precede puzzle verification.
pub enum SubmitCheck {
    /// Reply with this message; no verification is needed.
    Reject(StratumMessage),
    /// Run the verification oracle with these parameters.
    NeedVerify { epoch_hash: Vec<u8>, address: Vec<u8>, share_target: u64 },
}

/// No two elements equal.
pub open spec fn distinct_u64(s: Seq<u64>) -> bool {
    forall|i: int, j: int| 0 <= i < j < s.len() ==> s[i] != s[j]
}

/// Some row of the prover-state table belongs to this peer.
pub open spec fn has_row_for(s: Seq<(u64, ProverState)>, p: u64) -> bool {
    exists|k: int| 0 <= k < s.len() && (#[trigger] s[k]).0 == p
}

/// Some row of the prover-state table belongs to this peer and carries
/// this address.
pub open spec fn has_row(s: Seq<(u64, ProverState)>, p: u64, a: Seq<u8>) -> bool {
    exists|k: int| 0 <= k < s.len() && (#[trigger] s[k]).0 == p && s[k].1.address@ == a
}

/// The peer appears in the connection list of this address.
pub open spec fn listed_under(ac: Seq<(Vec<u8>, Vec<u64>)>, a: Seq<u8>, p: u64) -> bool {
    exists|j: int| 0 <= j < ac.len() && (#[trigger] ac[j]).0@ == a && ac[j].1@.contains(p)
}

/// Finds a peer in a vector of peer ids.
fn contains_u64(v: &Vec<u64>, x: u64) -> (r: bool)
    ensures r == v@.contains(x),
{
    let mut i: usize = 0;
    while i < v.len()
        invariant
            0 <= i <= v@.len(),
            forall|j: int| 0 <= j < i ==> v@[j] != x,
        decreases v@.len() - i,
    {
        if v[i] == x {
            return true;
        }
        i = i + 1;
    }
    false
}

/// Builds a JSON-RPC error response.
fn error_response(id: u64, code: i64, message: Vec<u8>) -> (r: StratumMessage)
    ensures
        r == StratumMessage::Response(
            id,
            None::<ResponseParams>,
            Some(ErrorObject { code, message }),
        ),
{
    StratumMessage::Response(id, None, Some(ErrorObject { code, message }))
}

/// The target a prover's state promotes to during fan-out.
pub open spec fn promoted_target(st: ProverState) -> u64 {
    if promotes(st.current_target, st.next_target) {
        st.next_target
    } else {
        st.current_target
    }
}

/// The two messages a prover receives during epoch fan-out: its effective
/// target, then a clean-jobs notify whose job id is the epoch number in
/// hex and whose epoch hash is hex-encoded.
pub open spec fn fanout_pair_ok(
    a1: ServerAction,
    a2: ServerAction,
    peer: u64,
    st_pre: ProverState,
    modifier_x200: u64,
    proof_target: u64,
    epoch_number: u32,
    epoch_hash: Seq<u8>,
    pool_addr: Seq<u8>,
) -> bool {
    &&& match a1 {
        ServerAction::Send(p1, StratumMessage::SetTarget(t)) => p1 == peer && t
            == effective_target_spec(proof_target, promoted_target(st_pre), modifier_x200),
        _ => false,
    }
    &&& match a2 {
        ServerAction::Send(p2, StratumMessage::Notify(jid, eh, ad, clean)) => {
            &&& p2 == peer
            &&& jid@ == hex_of_bytes(be32(epoch_number))
            &&& eh@ == hex_of_bytes(epoch_hash)
            &&& match ad {
                Some(pa) => pa@ == pool_addr,
                None => false,
            }
            &&& clean == true
        },
        _ => false,
    }
}

/// The single error reply of a rejected submit.
pub open spec fn reply_only(actions: Seq<ServerAction>, peer: u64, id: u64, code: i64) -> bool {
    &&& actions.len() == 1
    &&& match actions[0] {
        ServerAction::Send(p, StratumMessage::Response(rid, res, Some(e))) => p == peer && rid
            == id && res is None && e.code == code,
        _ => false,
    }
}

/// The actions of an accepted share: an ok reply, an accounting record at
/// the target in force at admission, and, when the solution beats the
/// proof target, an upstream submission.
pub open spec fn accepted_share_ok(
    actions: Seq<ServerAction>,
    peer: u64,
    id: u64,
    nonce: u64,
    beats: bool,
    st_pre: ProverState,
    epoch_hash: Seq<u8>,
) -> bool {
    &&& actions.len() == (if beats { 3int } else { 2int })
    &&& match actions[0] {
        ServerAction::Send(p, StratumMessage::Response(rid, Some(ResponseParams::Bool(b)), e)) =>
            p == peer && rid == id && b == true && e is None,
        _ => false,
    }
    &&& match actions[1] {
        ServerAction::Account(AccountingMessage::NewShare(a, t, e)) => a@ == st_pre.address@ && t
            == st_pre.current_target && e@ == epoch_hash,
        _ => false,
    }
    &&& beats ==> match actions[2] {
        ServerAction::Upstream(rec) => rec.address@ == st_pre.address@ && rec.nonce == nonce
            && rec.epoch_hash@ == epoch_hash,
        _ => false,
    }
}

pub struct ServerState {
    /// The pool's own payout address, sent in notifies.
    pub pool_address: Vec<u8>,
    /// Peers that connected but have not authorized yet.
    pub connected: Vec<u64>,
    /// Peers with a live outbound mailbox.
    pub authenticated: Vec<u64>,
    /// Difficulty state per authenticated peer.
    pub prover_states: Vec<(u64, ProverState)>,
    /// Peers grouped by payout address.
    pub address_connections: Vec<(Vec<u8>, Vec<u64>)>,
    /// Pool-wide rates and global modifier.
    pub pool_state: PoolState,
    pub latest_epoch_number: u32,
    pub latest_epoch_hash: Option<Vec<u8>>,
    pub latest_proof_target: u64,
    /// Nonces seen in the current epoch window.
    pub nonce_seen: Vec<u64>,
}

impl ServerState {
    /// Registry agreement (the invariant behind the state tables):
    /// the authenticated set and the prover-state table hold the same
    /// peers, each at most once, and pre-auth peers are separate.
    pub open spec fn registry_keys_agree(self) -> bool {
        &&& distinct_u64(self.authenticated@)
        &&& forall|i: int, j: int|
            0 <= i < j < self.prover_states@.len() ==> self.prover_states@[i].0
                != self.prover_states@[j].0
        &&& forall|i: int|
            0 <= i < self.authenticated@.len() ==> has_row_for(
                self.prover_states@,
                #[trigger] self.authenticated@[i],
            )
        &&& forall|i: int|
            0 <= i < self.prover_states@.len() ==> self.authenticated@.contains(
                (#[trigger] self.prover_states@[i]).0,
            )
        &&& distinct_u64(self.connected@)
        &&& forall|i: int|
            0 <= i < self.connected@.len() ==> !self.authenticated@.contains(
                #[trigger] self.connected@[i],
            )
    }

    /// Address-link agreement: every peer listed under an address has a
    /// prover state with that address, and every prover is listed under
    /// its own address.
    pub open spec fn address_links_agree(self) -> bool {
        &&& forall|i: int, j: int|
            0 <= i < j < self.address_connections@.len() ==> self.address_connections@[i].0@
                != self.address_connections@[j].0@
        &&& forall|i: int, j: int|
            0 <= i < self.address_connections@.len() && 0 <= j
                < self.address_connections@[i].1@.len() ==> has_row(
                self.prover_states@,
                #[trigger] self.address_connections@[i].1@[j],
                self.address_connections@[i].0@,
            )
        &&& forall|i: int|
            0 <= i < self.prover_states@.len() ==> listed_under(
                self.address_connections@,
                (#[trigger] self.prover_states@[i]).1.address@,
                self.prover_states@[i].0,
            )
        &&& forall|i: int|
            0 <= i < self.address_connections@.len() ==> distinct_u64(
                (#[trigger] self.address_connections@[i]).1@,
            )
    }

    pub open spec fn wf(self) -> bool {
        &&& self.registry_keys_agree()
        &&& self.address_links_agree()
        &&& forall|i: int| 0 <= i < self.prover_states@.len() ==> (
            #[trigger] self.prover_states@[i]).1.wf()
        &&& self.pool_state.wf()
        &&& distinct_u64(self.nonce_seen@)
    }

    /// All recorded rate-meter instants lie at or before `now_ms`.
    pub open spec fn ready_at(self, now_ms: u64) -> bool {
        &&& self.pool_state.ready_at(now_ms)
        &&& forall|i: int| 0 <= i < self.prover_states@.len() ==> (
            #[trigger] self.prover_states@[i]).1.ready_at(now_ms)
    }

    /// All rate meters have room for one more event.
    pub open spec fn room(self) -> bool {
        &&& self.pool_state.room_at()
        &&& forall|i: int| 0 <= i < self.prover_states@.len() ==> (
            #[trigger] self.prover_states@[i]).1.room_at()
    }

    pub fn new(pool_address: Vec<u8>) -> (r: ServerState)
        ensures
            r.wf(),
            r.ready_at(0),
            r.pool_address@ == pool_address@,
            r.connected@ == Seq::<u64>::empty(),
            r.authenticated@ == Seq::<u64>::empty(),
            r.prover_states@.len() == 0,
            r.address_connections@.len() == 0,
            r.latest_epoch_number == 0,
            r.latest_epoch_hash is None,
            r.latest_proof_target == u64::MAX,
            r.nonce_seen@ == Seq::<u64>::empty(),
    {
        let r = ServerState {
            pool_address,
            connected: Vec::new(),
            authenticated: Vec::new(),
            prover_states: Vec::new(),
            address_connections: Vec::new(),
            pool_state: PoolState::new(),
            latest_epoch_number: 0,
            latest_epoch_hash: None,
            latest_proof_target: u64::MAX,
            nonce_seen: Vec::new(),
        };
        proof {
            assert(r.connected@ =~= Seq::<u64>::empty());
            assert(r.authenticated@ =~= Seq::<u64>::empty());
            assert(r.nonce_seen@ =~= Seq::<u64>::empty());
        }
        r
    }

    /// A fresh TCP peer: remembered as pre-auth. A peer already known
    /// (still connected or already authenticated) is left as is.
    pub fn prover_connected(&mut self, peer: u64)
        requires old(self).wf(),
        ensures
            final(self).wf(),
            final(self).connected@ == if !old(self).connected@.contains(peer) && !old(
                self,
            ).authenticated@.contains(peer) {
                old(self).connected@.push(peer)
            } else {
                old(self).connected@
            },
            final(self).authenticated@ == old(self).authenticated@,
            final(self).prover_states@ == old(self).prover_states@,
            final(self).address_connections@ == old(self).address_connections@,
            final(self).nonce_seen@ == old(self).nonce_seen@,
            final(self).pool_state == old(self).pool_state,
            final(self).latest_epoch_number == old(self).latest_epoch_number,
            final(self).latest_epoch_hash == old(self).latest_epoch_hash,
            final(self).latest_proof_target == old(self).latest_proof_target,
            final(self).pool_address@ == old(self).pool_address@,
    {
        if !contains_u64(&self.connected, peer) && !contains_u64(&self.authenticated, peer) {
            self.connected.push(peer);
            proof {
                assert forall|i: int| 0 <= i < self.connected@.len()
                    implies !self.authenticated@.contains(#[trigger] self.connected@[i]) by {
                    if i < self.connected@.len() - 1 {
                        assert(self.connected@[i] == old(self).connected@[i]);
                    }
                }
                assert forall|a: int, b: int| 0 <= a < b < self.connected@.len()
                    implies self.connected@[a] != self.connected@[b] by {
                    if b == self.connected@.len() - 1 {
                        assert(self.connected@[a] == old(self).connected@[a]);
                        assert(old(self).connected@.contains(old(self).connected@[a]));
                    } else {
                        assert(self.connected@[a] == old(self).connected@[a]);
                        assert(self.connected@[b] == old(self).connected@[b]);
                    }
                }
            }
        }
    }

    /// A peer completed authorize with the given payout address: it moves
    /// from the pre-auth set into all three registries, with a fresh
    /// difficulty state. A peer already authenticated is left alone and
    /// the call returns false.
    pub fn prover_authenticated(&mut self, peer: u64, address: Vec<u8>) -> (became: bool)
        requires old(self).wf(),
        ensures
            final(self).wf(),
            became == !old(self).authenticated@.contains(peer),
            !became ==> *final(self) == *old(self),
            became ==> {
                &&& final(self).authenticated@ == old(self).authenticated@.push(peer)
                &&& final(self).prover_states@.len() == old(self).prover_states@.len() + 1
                &&& final(self).prover_states@.last().0 == peer
                &&& final(self).prover_states@.last().1.address@ == address@
                &&& final(self).prover_states@.last().1.current_target
                    == crate::targeting::INITIAL_TARGET
                &&& final(self).prover_states@.take(old(self).prover_states@.len() as int)
                    == old(self).prover_states@
                &&& !final(self).connected@.contains(peer)
            },
            final(self).nonce_seen@ == old(self).nonce_seen@,
            final(self).pool_state == old(self).pool_state,
            final(self).latest_epoch_number == old(self).latest_epoch_number,
            final(self).latest_epoch_hash == old(self).latest_epoch_hash,
            final(self).latest_proof_target == old(self).latest_proof_target,
            old(self).ready_at(0) ==> final(self).ready_at(0),
    {
        if contains_u64(&self.authenticated, peer) {
            return false;
        }
        // drop the peer from the pre-auth set if it is there
        let mut i: usize = 0;
        let mut removed: bool = false;
        while !removed && i < self.connected.len()
            invariant
                old(self).wf(),
                self.authenticated@ == old(self).authenticated@,
                self.prover_states@ == old(self).prover_states@,
                self.address_connections@ == old(self).address_connections@,
                self.nonce_seen@ == old(self).nonce_seen@,
                self.pool_state == old(self).pool_state,
                self.pool_address@ == old(self).pool_address@,
                self.latest_epoch_number == old(self).latest_epoch_number,
                self.latest_epoch_hash == old(self).latest_epoch_hash,
                self.latest_proof_target == old(self).latest_proof_target,
                0 <= i <= self.connected@.len(),
                distinct_u64(self.connected@),
                forall|j: int|
                    0 <= j < self.connected@.len() ==> old(self).connected@.contains(
                        #[trigger] self.connected@[j],
                    ),
                !self.connected@.take(i as int).contains(peer),
                removed ==> forall|j: int|
                    0 <= j < self.connected@.len() ==> self.connected@[j] != peer,
                !removed ==> self.connected@ == old(self).connected@,
                forall|j: int|
                    0 <= j < self.connected@.len() ==> !self.authenticated@.contains(
                        #[trigger] self.connected@[j],
                    ),
            decreases (if removed { 0int } else { 1int }), self.connected@.len() - i,
        {
            if self.connected[i] == peer {
                let ghost pre = self.connected@;
                self.connected.remove(i);
                proof { assert(pre.take(i as int) =~= self.connected@.take(i as int)); }
                proof {
                    assert forall|j: int| 0 <= j < self.connected@.len()
                        implies old(self).connected@.contains(#[trigger] self.connected@[j]) by {
                        if j < i {
                            assert(self.connected@[j] == pre[j]);
                        } else {
                            assert(self.connected@[j] == pre[j + 1]);
                        }
                    }
                    assert forall|j: int| 0 <= j < self.connected@.len()
                        implies !self.authenticated@.contains(#[trigger] self.connected@[j]) by {
                        if j < i {
                            assert(self.connected@[j] == pre[j]);
                        } else {
                            assert(self.connected@[j] == pre[j + 1]);
                        }
                    }
                    assert forall|a: int, b: int| 0 <= a < b < self.connected@.len()
                        implies self.connected@[a] != self.connected@[b] by {
                        let pa = if a < i { a } else { a + 1 };
                        let pb = if b < i { b } else { b + 1 };
                        assert(self.connected@[a] == pre[pa]);
                        assert(self.connected@[b] == pre[pb]);
                    }
                    assert forall|j: int| 0 <= j < self.connected@.len()
                        implies self.connected@[j] != peer by {
                        let pj = if j < i { j } else { j + 1 };
                        assert(self.connected@[j] == pre[pj]);
                        if pj < i {
                            assert(pre.take(i as int)[pj] == pre[pj]);
                        } else if pj > i {
                            assert(pre[pj] != pre[i as int]);
                        }
                    }
                }
                removed = true;
            } else {
                i = i + 1;
                proof {
                    assert(self.connected@.take(i as int) =~= self.connected@.take(i - 1).push(
                        self.connected@[i - 1],
                    ));
                }
            }
        }
        let ghost conn_now = self.connected@;
        assert(!conn_now.contains(peer)) by {
            if !removed {
                assert(conn_now.take(conn_now.len() as int) =~= conn_now);
            }
            if conn_now.contains(peer) {
                let w = choose|w: int| 0 <= w < conn_now.len() && conn_now[w] == peer;
                assert(conn_now[w] == peer);
            }
        }
        // insert into the three registries
        self.authenticated.push(peer);
        let state = ProverState::new(address);
        let ghost ps_pre = self.prover_states@;
        let addr_copy = state.address.clone();
        proof { assert(addr_copy@ =~= state.address@); }
        self.prover_states.push((peer, state));
        let ghost ps_now = self.prover_states@;
        // link the address
        let mut ai: usize = 0;
        let mut found: bool = false;
        while !found && ai < self.address_connections.len()
            invariant
                0 <= ai <= self.address_connections@.len(),
                !found ==> forall|j: int|
                    0 <= j < ai ==> self.address_connections@[j].0@ != addr_copy@,
                found ==> ai < self.address_connections@.len()
                    && self.address_connections@[ai as int].0@ == addr_copy@,
                addr_copy@ == ps_now[ps_pre.len() as int].1.address@,
            decreases (if found { 0int } else { 1int }), self.address_connections@.len() - ai,
        {
            if bytes_eq(&self.address_connections[ai].0, &addr_copy) {
                found = true;
            } else {
                ai = ai + 1;
            }
        }
        let ghost ac_pre = self.address_connections@;
        if found {
            let entry = self.address_connections.remove(ai);
            let (akey, mut peers) = entry;
            peers.push(peer);
            self.address_connections.insert(ai, (akey, peers));
            proof {
                assert(self.address_connections@ =~= ac_pre.update(
                    ai as int,
                    self.address_connections@[ai as int],
                ));
            }
        } else {
            let mut peers: Vec<u64> = Vec::new();
            peers.push(peer);
            self.address_connections.insert(ai, (addr_copy, peers));
            proof {
                assert(self.address_connections@ =~= ac_pre.push(
                    self.address_connections@[ai as int],
                ));
            }
        }
        proof {
            assert(self.prover_states@.take(ps_pre.len() as int) =~= ps_pre);
            lemma_auth_insert_wf(*old(self), *self, peer, ai as int, found, ps_pre, ac_pre);
        }
        true
    }

    /// A peer went away: it is removed from the pre-auth set, the
    /// authenticated set, the prover-state table and its address's
    /// connection list; an address with no remaining connections is
    /// dropped.
    pub fn prover_disconnected(&mut self, peer: u64)
        requires old(self).wf(),
        ensures
            final(self).wf(),
            !final(self).connected@.contains(peer),
            !final(self).authenticated@.contains(peer),
            !has_row_for(final(self).prover_states@, peer),
            forall|q: u64|
                q != peer ==> final(self).authenticated@.contains(q) == old(
                    self,
                ).authenticated@.contains(q),
            forall|q: u64|
                q != peer ==> has_row_for(final(self).prover_states@, q) == has_row_for(
                    old(self).prover_states@,
                    q,
                ),
            final(self).nonce_seen@ == old(self).nonce_seen@,
            final(self).pool_state == old(self).pool_state,
            final(self).latest_epoch_number == old(self).latest_epoch_number,
            final(self).latest_epoch_hash == old(self).latest_epoch_hash,
            final(self).latest_proof_target == old(self).latest_proof_target,
    {
        remove_u64(&mut self.connected, peer);
        let k = self.find_prover(peer);
        match k {
            None => {
                proof {
                    assert forall|q: u64|
                        q != peer implies has_row_for(self.prover_states@, q) == has_row_for(
                        old(self).prover_states@,
                        q,
                    ) by {}
                    if has_row_for(self.prover_states@, peer) {
                        let w = choose|w: int|
                            0 <= w < self.prover_states@.len() && (
                            #[trigger] self.prover_states@[w]).0 == peer;
                        assert(self.prover_states@[w].0 == peer);
                    }
                    assert forall|i: int| 0 <= i < self.connected@.len()
                        implies !self.authenticated@.contains(#[trigger] self.connected@[i]) by {
                        assert(old(self).connected@.contains(self.connected@[i]));
                        let w = choose|w: int|
                            0 <= w < old(self).connected@.len() && old(self).connected@[w]
                                == self.connected@[i];
                        assert(!old(self).authenticated@.contains(old(self).connected@[w]));
                    }
                    if self.authenticated@.contains(peer) {
                        let w = choose|w: int|
                            0 <= w < self.authenticated@.len() && self.authenticated@[w] == peer;
                        assert(has_row_for(self.prover_states@, self.authenticated@[w]));
                        let v = choose|v: int|
                            0 <= v < self.prover_states@.len() && (
                            #[trigger] self.prover_states@[v]).0 == peer;
                        assert(self.prover_states@[v].0 == peer);
                    }
                }
            },
            Some(k) => {
                let ghost pre_mid = *self;
                let row = self.prover_states.remove(k);
                let address = row.1.address;
                remove_u64(&mut self.authenticated, peer);
                // unlink from the address's connection list
                let mut ai: usize = 0;
                let mut found: bool = false;
                while !found && ai < self.address_connections.len()
                    invariant
                        0 <= ai <= self.address_connections@.len(),
                        !found ==> forall|j: int|
                            0 <= j < ai ==> self.address_connections@[j].0@ != address@,
                        found ==> ai < self.address_connections@.len()
                            && self.address_connections@[ai as int].0@ == address@,
                    decreases (if found { 0int } else { 1int }),
                        self.address_connections@.len() - ai,
                {
                    if bytes_eq(&self.address_connections[ai].0, &address) {
                        found = true;
                    } else {
                        ai = ai + 1;
                    }
                }
                let ghost ac_pre = self.address_connections@;
                proof {
                    assert(listed_under(ac_pre, address@, peer)) by {
                        assert(old(self).prover_states@[k as int].1.address@ == address@);
                    }
                    if !found {
                        let w = choose|w: int|
                            0 <= w < ac_pre.len() && (#[trigger] ac_pre[w]).0@ == address@
                                && ac_pre[w].1@.contains(peer);
                        assert(ac_pre[w].0@ == address@);
                    }
                    assert(found);
                }
                if found {
                    let entry = self.address_connections.remove(ai);
                    let (akey, mut peers) = entry;
                    proof {
                        assert(distinct_u64(peers@)) by {
                            assert(old(self).address_connections@[ai as int].1@ == peers@);
                        }
                    }
                    remove_u64(&mut peers, peer);
                    if peers.len() > 0 {
                        self.address_connections.insert(ai, (akey, peers));
                        proof {
                            assert(self.address_connections@ =~= ac_pre.update(
                                ai as int,
                                self.address_connections@[ai as int],
                            ));
                        }
                    } else {
                        proof {
                            assert(self.address_connections@ =~= ac_pre.remove(ai as int));
                        }
                    }
                }
                proof {
                    lemma_disconnect_wf(
                        *old(self),
                        *self,
                        peer,
                        k as int,
                        ai as int,
                        found,
                        ac_pre,
                        address@,
                    );
                }
            },
        }
    }

    /// The messages pushed to a prover right after it authorizes: its
    /// effective target, and a clean-jobs notify when an epoch is current.
    pub fn initial_push(&self, peer: u64) -> (r: Vec<ServerAction>)
        requires self.wf(),
        ensures
            !has_row_for(self.prover_states@, peer) ==> r@.len() == 0,
            has_row_for(self.prover_states@, peer) ==> exists|k: int|
                0 <= k < self.prover_states@.len() && (#[trigger] self.prover_states@[k]).0
                    == peer && {
                    let eff = effective_target_spec(
                        self.latest_proof_target,
                        self.prover_states@[k].1.current_target,
                        self.pool_state.current_modifier_x200,
                    );
                    &&& r@.len() >= 1
                    &&& r@[0] == ServerAction::Send(peer, StratumMessage::SetTarget(eff))
                    &&& (self.latest_epoch_hash is Some <==> r@.len() == 2)
                    &&& (self.latest_epoch_hash matches Some(h) ==> match r@[1] {
                        ServerAction::Send(p2, StratumMessage::Notify(jid, eh, ad, clean)) => {
                            &&& p2 == peer
                            &&& jid@ == hex_of_bytes(be32(self.latest_epoch_number))
                            &&& eh@ == hex_of_bytes(h@)
                            &&& (ad matches Some(pa) && pa@ == self.pool_address@)
                            &&& clean == true
                        },
                        _ => false,
                    })
                },
    {
        let mut r: Vec<ServerAction> = Vec::new();
        let k = match self.find_prover(peer) {
            Some(k) => k,
            None => {
                proof {
                    if has_row_for(self.prover_states@, peer) {
                        let w = choose|w: int|
                            0 <= w < self.prover_states@.len() && (
                            #[trigger] self.prover_states@[w]).0 == peer;
                        assert(self.prover_states@[w].0 == peer);
                    }
                }
                return r;
            },
        };
        let eff = effective_target(
            self.latest_proof_target,
            self.prover_states[k].1.current_target,
            self.pool_state.current_global_target_modifier(),
        );
        r.push(ServerAction::Send(peer, StratumMessage::SetTarget(eff)));
        match &self.latest_epoch_hash {
            None => {},
            Some(h) => {
                let job_bytes = u32_to_be(self.latest_epoch_number);
                let jid = encode_hex(&job_bytes);
                let ehx = encode_hex(h);
                let pa = copy_bytes(&self.pool_address);
                r.push(ServerAction::Send(
                    peer,
                    StratumMessage::Notify(jid, ehx, Some(pa), true),
                ));
            },
        }
        proof {
            assert(self.prover_states@[k as int].0 == peer);
            assert(has_row_for(self.prover_states@, peer));
        }
        r
    }

    /// Clears the nonce dedup set (the 60-second background tick).
    pub fn clear_nonces(&mut self)
        requires old(self).wf(),
        ensures
            final(self).wf(),
            final(self).nonce_seen@ == Seq::<u64>::empty(),
            final(self).connected@ == old(self).connected@,
            final(self).authenticated@ == old(self).authenticated@,
            final(self).prover_states@ == old(self).prover_states@,
            final(self).address_connections@ == old(self).address_connections@,
            final(self).pool_state == old(self).pool_state,
            final(self).latest_epoch_number == old(self).latest_epoch_number,
            final(self).latest_epoch_hash == old(self).latest_epoch_hash,
            final(self).latest_proof_target == old(self).latest_proof_target,
    {
        self.nonce_seen = Vec::new();
        proof {
            assert(self.nonce_seen@ =~= Seq::<u64>::empty());
        }
    }

    /// A new epoch arrived from the upstream node. A number at or below
    /// the latest one is ignored entirely. Otherwise the epoch state is
    /// replaced, the nonce set cleared, the pool modifier and every
    /// prover's target promoted, and each authenticated prover is sent
    /// its new effective target followed by a clean-jobs notify whose
    /// job id encodes the epoch number.
    pub fn new_epoch_hash(
        &mut self,
        epoch_hash: Vec<u8>,
        epoch_number: u32,
        proof_target: u64,
    ) -> (actions: Vec<ServerAction>)
        requires old(self).wf(),
        ensures
            final(self).wf(),
            epoch_number <= old(self).latest_epoch_number ==> {
                &&& *final(self) == *old(self)
                &&& actions@.len() == 0
            },
            epoch_number > old(self).latest_epoch_number ==> {
                &&& final(self).latest_epoch_number == epoch_number
                &&& (final(self).latest_epoch_hash matches Some(h) && h@ == epoch_hash@)
                &&& final(self).latest_proof_target == proof_target
                &&& final(self).nonce_seen@ == Seq::<u64>::empty()
                &&& final(self).connected@ == old(self).connected@
                &&& final(self).authenticated@ == old(self).authenticated@
                &&& final(self).address_connections@ == old(self).address_connections@
                &&& final(self).prover_states@.len() == old(self).prover_states@.len()
                &&& forall|i: int|
                    0 <= i < old(self).prover_states@.len() ==> {
                        let pre = (#[trigger] old(self).prover_states@[i]);
                        let post = final(self).prover_states@[i];
                        &&& post.0 == pre.0
                        &&& post.1.address@ == pre.1.address@
                        &&& post.1.current_target == promoted_target(pre.1)
                        &&& post.1.next_target == pre.1.next_target
                    }
                &&& final(self).pool_state.current_modifier_x200 == old(
                    self,
                ).pool_state.next_modifier_x200
                &&& actions@.len() == 2 * old(self).prover_states@.len()
                &&& forall|i: int|
                    0 <= i < old(self).prover_states@.len() ==> fanout_pair_ok(
                        actions@[2 * i],
                        actions@[2 * i + 1],
                        (#[trigger] old(self).prover_states@[i]).0,
                        old(self).prover_states@[i].1,
                        old(self).pool_state.next_modifier_x200,
                        proof_target,
                        epoch_number,
                        epoch_hash@,
                        old(self).pool_address@,
                    )
            },
    {
        if epoch_number <= self.latest_epoch_number {
            return Vec::new();
        }
        let modifier = self.pool_state.next_global_target_modifier();
        self.latest_epoch_number = epoch_number;
        self.latest_proof_target = proof_target;
        self.nonce_seen = Vec::new();
        proof {
            assert(self.nonce_seen@ =~= Seq::<u64>::empty());
        }
        let epoch_hex = encode_hex(&epoch_hash);
        self.latest_epoch_hash = Some(epoch_hash);
        let job_bytes = u32_to_be(epoch_number);
        let job_id = encode_hex(&job_bytes);
        let mut actions: Vec<ServerAction> = Vec::new();
        let mut i: usize = 0;
        let n = self.prover_states.len();
        while i < n
            invariant
                n == self.prover_states@.len(),
                n == old(self).prover_states@.len(),
                0 <= i <= n,
                actions@.len() == 2 * i,
                modifier == old(self).pool_state.next_modifier_x200,
                job_id@ == hex_of_bytes(be32(epoch_number)),
                self.pool_address@ == old(self).pool_address@,
                self.connected@ == old(self).connected@,
                self.authenticated@ == old(self).authenticated@,
                self.address_connections@ == old(self).address_connections@,
                self.nonce_seen@ == Seq::<u64>::empty(),
                self.pool_state.wf(),
                self.pool_state.current_modifier_x200 == old(self).pool_state.next_modifier_x200,
                self.latest_epoch_number == epoch_number,
                self.latest_proof_target == proof_target,
                old(self).wf(),
                forall|j: int|
                    i <= j < n ==> self.prover_states@[j] == old(self).prover_states@[j],
                forall|j: int|
                    0 <= j < i ==> {
                        let pre = (#[trigger] old(self).prover_states@[j]);
                        let post = self.prover_states@[j];
                        &&& post.0 == pre.0
                        &&& post.1.address@ == pre.1.address@
                        &&& post.1.current_target == promoted_target(pre.1)
                        &&& post.1.next_target == pre.1.next_target
                        &&& post.1.wf()
                    },
                forall|j: int|
                    0 <= j < i ==> fanout_pair_ok(
                        actions@[2 * j],
                        actions@[2 * j + 1],
                        (#[trigger] old(self).prover_states@[j]).0,
                        old(self).prover_states@[j].1,
                        old(self).pool_state.next_modifier_x200,
                        proof_target,
                        epoch_number,
                        (match self.latest_epoch_hash {
                            Some(h) => h@,
                            None => Seq::<u8>::empty(),
                        }),
                        old(self).pool_address@,
                    ),
                forall|j: int|
                    0 <= j < n ==> (#[trigger] old(self).prover_states@[j]).1.wf(),
                (self.latest_epoch_hash matches Some(h) && h@ == epoch_hash@ && epoch_hex@
                    == hex_of_bytes(h@)),
            decreases n - i,
        {
            let row = self.prover_states.remove(i);
            let (peer, mut st) = row;
            let promoted = st.next_target();
            let eff = effective_target(proof_target, promoted, modifier);
            self.prover_states.insert(i, (peer, st));
            actions.push(ServerAction::Send(peer, StratumMessage::SetTarget(eff)));
            let jid = copy_bytes(&job_id);
            let ehx = copy_bytes(&epoch_hex);
            let pa = copy_bytes(&self.pool_address);
            actions.push(ServerAction::Send(
                peer,
                StratumMessage::Notify(jid, ehx, Some(pa), true),
            ));
            i = i + 1;
        }
        proof {
            lemma_wf_same_shape(*old(self), *self);
        }
        actions
    }

    /// The checks that precede puzzle verification: the peer must be
    /// authenticated and the share must be against the current epoch.
    /// On success the caller runs the verification oracle with the
    /// returned epoch hash, address and share target, then calls
    /// `submit_finish` with the outcome.
    pub fn submit_precheck(&self, id: u64, peer: u64, job_epoch: u32) -> (r: SubmitCheck)
        requires self.wf(),
        ensures
            match r {
                SubmitCheck::Reject(m) => {
                    &&& !has_row_for(self.prover_states@, peer) || !(self.latest_epoch_hash
                        matches Some(_)) || job_epoch != self.latest_epoch_number
                    &&& match m {
                        StratumMessage::Response(rid, res, Some(e)) => {
                            &&& rid == id
                            &&& res is None
                            &&& !has_row_for(self.prover_states@, peer) ==> e.code
                                == ERR_UNAUTHORIZED
                            &&& (has_row_for(self.prover_states@, peer) && (!(
                            self.latest_epoch_hash matches Some(_)) || job_epoch
                                != self.latest_epoch_number)) ==> e.code == ERR_STALE_SHARE
                        },
                        _ => false,
                    }
                },
                SubmitCheck::NeedVerify { epoch_hash, address, share_target } => {
                    &&& has_row_for(self.prover_states@, peer)
                    &&& (self.latest_epoch_hash matches Some(h) && epoch_hash@ == h@)
                    &&& job_epoch == self.latest_epoch_number
                    &&& exists|k: int|
                        0 <= k < self.prover_states@.len() && (
                        #[trigger] self.prover_states@[k]).0 == peer
                            && self.prover_states@[k].1.address@ == address@
                            && self.prover_states@[k].1.current_target == share_target
                },
            },
    {
        let k = self.find_prover(peer);
        match k {
            None => {
                proof {
                    if has_row_for(self.prover_states@, peer) {
                        let w = choose|w: int|
                            0 <= w < self.prover_states@.len() && (
                            #[trigger] self.prover_states@[w]).0 == peer;
                        assert(self.prover_states@[w].0 == peer);
                    }
                }
                SubmitCheck::Reject(error_response(
                    id,
                    ERR_UNAUTHORIZED,
                    "Unauthorized".as_bytes_vec(),
                ))
            },
            Some(k) => {
                match &self.latest_epoch_hash {
                    None => SubmitCheck::Reject(error_response(
                        id,
                        ERR_STALE_SHARE,
                        "Stale share".as_bytes_vec(),
                    )),
                    Some(h) => {
                        if job_epoch != self.latest_epoch_number {
                            SubmitCheck::Reject(error_response(
                                id,
                                ERR_STALE_SHARE,
                                "Stale share".as_bytes_vec(),
                            ))
                        } else {
                            let row_addr = copy_bytes(&self.prover_states[k].1.address);
                            let target = self.prover_states[k].1.current_target;
                            SubmitCheck::NeedVerify {
                                epoch_hash: copy_bytes(h),
                                address: row_addr,
                                share_target: target,
                            }
                        }
                    },
                }
            },
        }
    }

    /// Completes a submit with the oracle's outcome: `None` when no valid
    /// nonce was found for the share target, `Some((nonce, beats))` with
    /// the derived nonce and whether the solution also beats the epoch's
    /// proof target. A valid, fresh nonce is recorded, the share is
    /// credited at the target in force at admission, and a full solution
    /// is forwarded upstream.
    #[verifier::rlimit(60)]
    pub fn submit_finish(
        &mut self,
        id: u64,
        peer: u64,
        now_ms: u64,
        verify_result: Option<(u64, bool)>,
    ) -> (actions: Vec<ServerAction>)
        requires
            old(self).wf(),
            old(self).ready_at(now_ms),
            old(self).room(),
        ensures
            final(self).wf(),
            final(self).ready_at(now_ms),
            !has_row_for(old(self).prover_states@, peer) ==> {
                &&& *final(self) == *old(self)
                &&& reply_only(actions@, peer, id, ERR_UNAUTHORIZED)
            },
            (has_row_for(old(self).prover_states@, peer) && old(self).latest_epoch_hash
                is None) ==> {
                &&& *final(self) == *old(self)
                &&& reply_only(actions@, peer, id, ERR_STALE_SHARE)
            },
            (has_row_for(old(self).prover_states@, peer) && old(self).latest_epoch_hash
                is Some && verify_result is None) ==> {
                &&& *final(self) == *old(self)
                &&& reply_only(actions@, peer, id, ERR_INVALID_PROOF)
            },
            verify_result matches Some((nonce, beats)) ==> (has_row_for(
                old(self).prover_states@,
                peer,
            ) && old(self).latest_epoch_hash is Some && old(self).nonce_seen@.contains(
                nonce,
            )) ==> {
                &&& *final(self) == *old(self)
                &&& reply_only(actions@, peer, id, ERR_DUPLICATE_SHARE)
            },
            verify_result matches Some((nonce, beats)) ==> (has_row_for(
                old(self).prover_states@,
                peer,
            ) && old(self).latest_epoch_hash is Some && !old(self).nonce_seen@.contains(
                nonce,
            )) ==> {
                &&& final(self).nonce_seen@ == old(self).nonce_seen@.push(nonce)
                &&& exists|k: int|
                    0 <= k < old(self).prover_states@.len() && (
                    #[trigger] old(self).prover_states@[k]).0 == peer && accepted_share_ok(
                        actions@,
                        peer,
                        id,
                        nonce,
                        beats,
                        old(self).prover_states@[k].1,
                        (match old(self).latest_epoch_hash {
                            Some(h) => h@,
                            None => Seq::<u8>::empty(),
                        }),
                    ) && share_recorded(
                        old(self).prover_states@[k].1,
                        final(self).prover_states@[k].1,
                        now_ms,
                        old(self).prover_states@[k].1.current_target,
                    ) && pool_share_recorded(
                        old(self).pool_state,
                        final(self).pool_state,
                        now_ms,
                        old(self).prover_states@[k].1.current_target,
                    ) && (forall|j: int|
                        0 <= j < old(self).prover_states@.len() && j != k
                            ==> final(self).prover_states@[j] == old(self).prover_states@[j])
                &&& final(self).authenticated@ == old(self).authenticated@
                &&& final(self).connected@ == old(self).connected@
                &&& final(self).latest_epoch_hash == old(self).latest_epoch_hash
                &&& final(self).latest_epoch_number == old(self).latest_epoch_number
                &&& final(self).latest_proof_target == old(self).latest_proof_target
            },
    {
        let k = match self.find_prover(peer) {
            None => {
                proof {
                    if has_row_for(self.prover_states@, peer) {
                        let w = choose|w: int|
                            0 <= w < self.prover_states@.len() && (
                            #[trigger] self.prover_states@[w]).0 == peer;
                        assert(self.prover_states@[w].0 == peer);
                    }
                }
                let mut acts: Vec<ServerAction> = Vec::new();
                acts.push(ServerAction::Send(peer, error_response(
                    id,
                    ERR_UNAUTHORIZED,
                    "Unauthorized".as_bytes_vec(),
                )));
                return acts;
            },
            Some(k) => k,
        };
        proof {
            assert(has_row_for(self.prover_states@, peer)) by {
                assert(self.prover_states@[k as int].0 == peer);
            }
        }
        if self.latest_epoch_hash.is_none() {
            let mut acts: Vec<ServerAction> = Vec::new();
            acts.push(ServerAction::Send(peer, error_response(
                id,
                ERR_STALE_SHARE,
                "Stale share".as_bytes_vec(),
            )));
            return acts;
        }
        let (nonce, beats) = match verify_result {
            None => {
                let mut acts: Vec<ServerAction> = Vec::new();
                acts.push(ServerAction::Send(peer, error_response(
                    id,
                    ERR_INVALID_PROOF,
                    "Invalid proof".as_bytes_vec(),
                )));
                return acts;
            },
            Some(p) => p,
        };
        if contains_u64(&self.nonce_seen, nonce) {
            let mut acts: Vec<ServerAction> = Vec::new();
            acts.push(ServerAction::Send(peer, error_response(
                id,
                ERR_DUPLICATE_SHARE,
                "Duplicate share".as_bytes_vec(),
            )));
            return acts;
        }
        let ghost pre = *self;
        self.nonce_seen.push(nonce);
        proof {
            assert forall|a: int, b: int| 0 <= a < b < self.nonce_seen@.len()
                implies self.nonce_seen@[a] != self.nonce_seen@[b] by {
                if b == self.nonce_seen@.len() - 1 {
                    assert(self.nonce_seen@[a] == pre.nonce_seen@[a]);
                    assert(pre.nonce_seen@.contains(pre.nonce_seen@[a]));
                } else {
                    assert(self.nonce_seen@[a] == pre.nonce_seen@[a]);
                    assert(self.nonce_seen@[b] == pre.nonce_seen@[b]);
                }
            }
        }
        let row = self.prover_states.remove(k);
        let (rpeer, mut st) = row;
        let target = st.current_target();
        let address = copy_bytes(&st.address);
        st.add_share(now_ms, target);
        self.prover_states.insert(k, (rpeer, st));
        self.pool_state.add_share(now_ms, target);
        proof {
            assert(self.prover_states@ =~= pre.prover_states@.update(
                k as int,
                self.prover_states@[k as int],
            ));
            lemma_wf_same_shape(pre, *self);
        }
        let epoch_hex = match &self.latest_epoch_hash {
            Some(h) => copy_bytes(h),
            None => Vec::new(),
        };
        let mut acts: Vec<ServerAction> = Vec::new();
        acts.push(ServerAction::Send(
            peer,
            StratumMessage::Response(id, Some(ResponseParams::Bool(true)), None),
        ));
        acts.push(ServerAction::Account(AccountingMessage::NewShare(
            address,
            target,
            epoch_hex,
        )));
        if beats {
            let sol_addr = copy_bytes(&self.prover_states[k].1.address);
            let sol_hash = match &self.latest_epoch_hash {
                Some(h) => copy_bytes(h),
                None => Vec::new(),
            };
            acts.push(ServerAction::Upstream(SolutionRecord {
                address: sol_addr,
                nonce,
                epoch_hash: sol_hash,
            }));
        }
        proof {
            assert(pre.prover_states@[k as int].0 == peer);
            assert(accepted_share_ok(
                acts@,
                peer,
                id,
                nonce,
                beats,
                pre.prover_states@[k as int].1,
                (match pre.latest_epoch_hash {
                    Some(h) => h@,
                    None => Seq::<u8>::empty(),
                }),
            ));
        }
        acts
    }

    /// Looks a peer up in the prover-state table.
    fn find_prover(&self, peer: u64) -> (r: Option<usize>)
        ensures
            r matches Some(k) ==> k < self.prover_states@.len() && self.prover_states@[
                k as int
            ].0 == peer,
            r is None ==> forall|j: int|
                0 <= j < self.prover_states@.len() ==> (#[trigger] self.prover_states@[j]).0
                    != peer,
    {
        let mut i: usize = 0;
        while i < self.prover_states.len()
            invariant
                0 <= i <= self.prover_states@.len(),
                forall|j: int| 0 <= j < i ==> (#[trigger] self.prover_states@[j]).0 != peer,
            decreases self.prover_states@.len() - i,
        {
            if self.prover_states[i].0 == peer {
                return Some(i);
            }
            i = i + 1;
        }
        None
    }
}

/// Removes the first occurrence of `x`, if any. On a duplicate-free vector
/// the result no longer contains `x`.
fn remove_u64(v: &mut Vec<u64>, x: u64)
    ensures
        distinct_u64(old(v)@) ==> {
            &&& distinct_u64(final(v)@)
            &&& !final(v)@.contains(x)
            &&& forall|q: u64| q != x ==> final(v)@.contains(q) == old(v)@.contains(q)
        },
        !old(v)@.contains(x) ==> final(v)@ == old(v)@,
        final(v)@.len() <= old(v)@.len(),
        forall|j: int|
            0 <= j < final(v)@.len() ==> old(v)@.contains(#[trigger] final(v)@[j]),
{
    let mut i: usize = 0;
    let mut removed: bool = false;
    while !removed && i < v.len()
        invariant
            0 <= i <= v@.len(),
            !removed ==> v@ == old(v)@,
            !removed ==> forall|j: int| 0 <= j < i ==> v@[j] != x,
            removed ==> v@.len() == old(v)@.len() - 1,
            removed ==> exists|r: int|
                0 <= r <= v@.len() && (forall|j: int| 0 <= j < r ==> v@[j] == old(v)@[j]) && (
                forall|j: int| r <= j < v@.len() ==> v@[j] == old(v)@[j + 1]) && old(v)@[r] == x
                    && (forall|j: int| 0 <= j < r ==> old(v)@[j] != x),
        decreases (if removed { 0int } else { 1int }), v@.len() - i,
    {
        if v[i] == x {
            let ghost pre = v@;
            v.remove(i);
            proof {
                assert forall|j: int| 0 <= j < i implies v@[j] == old(v)@[j] by {}
                assert forall|j: int| i <= j < v@.len() implies v@[j] == old(v)@[j + 1] by {}
                assert(0 <= i as int <= v@.len() && (forall|j: int|
                    0 <= j < i as int ==> v@[j] == old(v)@[j]) && (forall|j: int|
                    i as int <= j < v@.len() ==> v@[j] == old(v)@[j + 1]) && old(v)@[i as int]
                    == x && (forall|j: int| 0 <= j < i as int ==> old(v)@[j] != x));
            }
            removed = true;
        } else {
            i = i + 1;
        }
    }
    proof {
        if !removed {
            assert forall|j: int| 0 <= j < v@.len() implies old(v)@.contains(
                #[trigger] v@[j],
            ) by {}
            if v@.contains(x) {
                let w = choose|w: int| 0 <= w < v@.len() && v@[w] == x;
                assert(v@[w] == x);
            }
            assert(!old(v)@.contains(x) ==> v@ == old(v)@);
        } else {
            let r = choose|r: int|
                0 <= r <= v@.len() && (forall|j: int| 0 <= j < r ==> v@[j] == old(v)@[j]) && (
                forall|j: int| r <= j < v@.len() ==> v@[j] == old(v)@[j + 1]) && old(v)@[r] == x
                    && (forall|j: int| 0 <= j < r ==> old(v)@[j] != x);
            assert forall|j: int| 0 <= j < v@.len() implies old(v)@.contains(
                #[trigger] v@[j],
            ) by {
                if j < r {
                    assert(v@[j] == old(v)@[j]);
                } else {
                    assert(v@[j] == old(v)@[j + 1]);
                }
            }
            assert(old(v)@.contains(x)) by {
                assert(old(v)@[r] == x);
            }
            if distinct_u64(old(v)@) {
                assert forall|a: int, b: int| 0 <= a < b < v@.len() implies v@[a] != v@[b] by {
                    let pa = if a < r { a } else { a + 1 };
                    let pb = if b < r { b } else { b + 1 };
                    assert(v@[a] == old(v)@[pa]);
                    assert(v@[b] == old(v)@[pb]);
                }
                assert(!v@.contains(x)) by {
                    if v@.contains(x) {
                        let w = choose|w: int| 0 <= w < v@.len() && v@[w] == x;
                        let pw = if w < r { w } else { w + 1 };
                        assert(v@[w] == old(v)@[pw]);
                        assert(old(v)@[pw] == x && old(v)@[r] == x);
                    }
                }
                assert forall|q: u64| q != x implies v@.contains(q) == old(v)@.contains(q) by {
                    if v@.contains(q) {
                        let w = choose|w: int| 0 <= w < v@.len() && v@[w] == q;
                        let pw = if w < r { w } else { w + 1 };
                        assert(old(v)@[pw] == q);
                        assert(old(v)@.contains(q));
                    }
                    if old(v)@.contains(q) {
                        let w = choose|w: int| 0 <= w < old(v)@.len() && old(v)@[w] == q;
                        if w < r {
                            assert(v@[w] == q);
                        } else if w > r {
                            assert(v@[w - 1] == q);
                        }
                        assert(v@.contains(q));
                    }
                }
            }
        }
    }
}


/// Re-establishes `wf` after an authorize inserted a fresh peer into all
/// three registries.
proof fn lemma_auth_insert_wf(
    pre: ServerState,
    post: ServerState,
    peer: u64,
    ai: int,
    found: bool,
    ps_pre: Seq<(u64, ProverState)>,
    ac_pre: Seq<(Vec<u8>, Vec<u64>)>,
)
    requires
        pre.wf(),
        !pre.authenticated@.contains(peer),
        post.authenticated@ == pre.authenticated@.push(peer),
        ps_pre == pre.prover_states@,
        post.prover_states@.len() == ps_pre.len() + 1,
        post.prover_states@.take(ps_pre.len() as int) == ps_pre,
        post.prover_states@.last().0 == peer,
        post.prover_states@.last().1.wf(),
        ac_pre.len() == pre.address_connections@.len(),
        found ==> {
            &&& 0 <= ai < ac_pre.len()
            &&& ac_pre == pre.address_connections@
            &&& post.address_connections@.len() == ac_pre.len()
            &&& forall|j: int|
                0 <= j < ac_pre.len() && j != ai ==> post.address_connections@[j] == ac_pre[j]
            &&& post.address_connections@[ai].0@ == ac_pre[ai].0@
            &&& post.address_connections@[ai].0@ == post.prover_states@.last().1.address@
            &&& post.address_connections@[ai].1@ == ac_pre[ai].1@.push(peer)
        },
        !found ==> {
            &&& ai == ac_pre.len()
            &&& ac_pre == pre.address_connections@
            &&& post.address_connections@.len() == ac_pre.len() + 1
            &&& forall|j: int|
                0 <= j < ac_pre.len() ==> post.address_connections@[j] == ac_pre[j]
            &&& post.address_connections@[ai].0@ == post.prover_states@.last().1.address@
            &&& post.address_connections@[ai].1@ == Seq::<u64>::empty().push(peer)
            &&& forall|j: int| 0 <= j < ac_pre.len() ==> ac_pre[j].0@
                != post.prover_states@.last().1.address@
        },
        !post.connected@.contains(peer),
        distinct_u64(post.connected@),
        forall|j: int|
            0 <= j < post.connected@.len() ==> pre.connected@.contains(
                #[trigger] post.connected@[j],
            ),
        post.nonce_seen@ == pre.nonce_seen@,
        post.pool_state == pre.pool_state,
    ensures post.wf(),
{
    assert forall|i: int| 0 <= i < ps_pre.len() implies post.prover_states@[i] == ps_pre[i] by {
        assert(post.prover_states@.take(ps_pre.len() as int)[i] == post.prover_states@[i]);
    }
    // authenticated distinct
    assert forall|i: int, j: int| 0 <= i < j < post.authenticated@.len() implies post.authenticated@[i] != post.authenticated@[j] by {
        if j == post.authenticated@.len() - 1 {
            assert(post.authenticated@[i] == pre.authenticated@[i]);
            assert(pre.authenticated@.contains(pre.authenticated@[i]));
        } else {
            assert(post.authenticated@[i] == pre.authenticated@[i]);
            assert(post.authenticated@[j] == pre.authenticated@[j]);
        }
    }
    // prover-state keys distinct
    assert forall|i: int, j: int| 0 <= i < j < post.prover_states@.len() implies post.prover_states@[i].0 != post.prover_states@[j].0 by {
        if j == post.prover_states@.len() - 1 {
            assert(post.prover_states@[i] == ps_pre[i]);
            if post.prover_states@[i].0 == peer {
                assert(pre.authenticated@.contains(ps_pre[i].0));
            }
        } else {
            assert(post.prover_states@[i] == ps_pre[i]);
            assert(post.prover_states@[j] == ps_pre[j]);
        }
    }
    // every authenticated peer has a state row
    assert forall|i: int| 0 <= i < post.authenticated@.len() implies has_row_for(
        post.prover_states@,
        #[trigger] post.authenticated@[i],
    ) by {
        if i == post.authenticated@.len() - 1 {
            assert(post.prover_states@[post.prover_states@.len() - 1].0 == peer);
        } else {
            assert(post.authenticated@[i] == pre.authenticated@[i]);
            assert(has_row_for(ps_pre, pre.authenticated@[i]));
            let j0 = choose|j: int|
                0 <= j < ps_pre.len() && (#[trigger] ps_pre[j]).0 == pre.authenticated@[i];
            assert(post.prover_states@[j0].0 == post.authenticated@[i]);
        }
    }
    // every state row's peer is authenticated
    assert forall|i: int| 0 <= i < post.prover_states@.len() implies post.authenticated@.contains((#[trigger] post.prover_states@[i]).0) by {
        if i == post.prover_states@.len() - 1 {
            assert(post.authenticated@[post.authenticated@.len() - 1] == peer);
        } else {
            assert(post.prover_states@[i] == ps_pre[i]);
            assert(pre.authenticated@.contains(ps_pre[i].0));
            let w = choose|w: int|
                0 <= w < pre.authenticated@.len() && pre.authenticated@[w] == ps_pre[i].0;
            assert(post.authenticated@[w] == ps_pre[i].0);
        }
    }
    // pre-auth peers are not authenticated
    assert forall|i: int| 0 <= i < post.connected@.len() implies !post.authenticated@.contains(
        #[trigger] post.connected@[i],
    ) by {
        let c = post.connected@[i];
        assert(pre.connected@.contains(c));
        let w = choose|w: int| 0 <= w < pre.connected@.len() && pre.connected@[w] == c;
        assert(!pre.authenticated@.contains(pre.connected@[w]));
        if post.authenticated@.contains(c) {
            let v = choose|v: int| 0 <= v < post.authenticated@.len() && post.authenticated@[v] == c;
            if v < post.authenticated@.len() - 1 {
                assert(pre.authenticated@[v] == c);
                assert(pre.authenticated@.contains(c));
            } else {
                assert(c == peer);
                assert(post.connected@[i] == c);
            }
        }
    }
    // address keys distinct
    assert forall|i: int, j: int| 0 <= i < j < post.address_connections@.len() implies post.address_connections@[i].0@ != post.address_connections@[j].0@ by {
        if found {
            assert(post.address_connections@[i].0@ == ac_pre[i].0@);
            assert(post.address_connections@[j].0@ == ac_pre[j].0@);
        } else {
            if j == post.address_connections@.len() - 1 {
                assert(post.address_connections@[i] == ac_pre[i]);
            } else {
                assert(post.address_connections@[i] == ac_pre[i]);
                assert(post.address_connections@[j] == ac_pre[j]);
            }
        }
    }
    // every listed peer has a matching state row
    assert forall|i: int, j: int|
        0 <= i < post.address_connections@.len() && 0 <= j
            < post.address_connections@[i].1@.len() implies has_row(
        post.prover_states@,
        #[trigger] post.address_connections@[i].1@[j],
        post.address_connections@[i].0@,
    ) by {
        let is_new = (found && i == ai && j == post.address_connections@[i].1@.len() - 1) || (!found && i == ai);
        if is_new {
            assert(post.address_connections@[i].1@[j] == peer);
            assert(post.prover_states@[post.prover_states@.len() - 1].0 == peer && post.prover_states@[post.prover_states@.len() - 1].1.address@ == post.address_connections@[ai].0@);
        } else {
            assert(post.address_connections@[i].1@[j] == ac_pre[i].1@[j]
                && post.address_connections@[i].0@ == ac_pre[i].0@);
            assert(has_row(ps_pre, ac_pre[i].1@[j], ac_pre[i].0@));
            let k0 = choose|k: int|
                0 <= k < ps_pre.len() && (#[trigger] ps_pre[k]).0 == ac_pre[i].1@[j]
                    && ps_pre[k].1.address@ == ac_pre[i].0@;
            assert(post.prover_states@[k0].0 == post.address_connections@[i].1@[j]
                && post.prover_states@[k0].1.address@ == post.address_connections@[i].0@);
        }
    }
    // every prover is listed under its address
    assert forall|i: int| 0 <= i < post.prover_states@.len() implies listed_under(
        post.address_connections@,
        (#[trigger] post.prover_states@[i]).1.address@,
        post.prover_states@[i].0,
    ) by {
        if i == post.prover_states@.len() - 1 {
            assert(post.address_connections@[ai].0@ == post.prover_states@.last().1.address@);
            assert(post.address_connections@[ai].1@[post.address_connections@[ai].1@.len() - 1] == peer);
            assert(post.address_connections@[ai].1@.contains(peer));
        } else {
            assert(post.prover_states@[i] == ps_pre[i]);
            assert(listed_under(ac_pre, ps_pre[i].1.address@, ps_pre[i].0));
            let j0 = choose|j: int|
                0 <= j < ac_pre.len() && (#[trigger] ac_pre[j]).0@ == ps_pre[i].1.address@
                    && ac_pre[j].1@.contains(ps_pre[i].0);
            assert(post.address_connections@[j0].0@ == ac_pre[j0].0@);
            if found && j0 == ai {
                let w = choose|w: int|
                    0 <= w < ac_pre[j0].1@.len() && ac_pre[j0].1@[w] == ps_pre[i].0;
                assert(post.address_connections@[j0].1@[w] == ps_pre[i].0);
                assert(post.address_connections@[j0].1@.contains(post.prover_states@[i].0));
            } else {
                assert(post.address_connections@[j0] == ac_pre[j0]);
            }
        }
    }
    // per-row well-formedness
    assert forall|i: int| 0 <= i < post.prover_states@.len() implies (#[trigger] post.prover_states@[i]).1.wf() by {
        if i < post.prover_states@.len() - 1 {
            assert(post.prover_states@[i] == ps_pre[i]);
        }
    }
    // connection lists stay duplicate-free: the fresh peer had no row, so
    // it was not listed anywhere before
    assert forall|i: int| 0 <= i < post.address_connections@.len() implies distinct_u64(
        (#[trigger] post.address_connections@[i]).1@,
    ) by {
        let is_touched = (found && i == ai) || (!found && i == ai);
        if is_touched {
            let lst = post.address_connections@[i].1@;
            if found {
                assert(distinct_u64(ac_pre[ai].1@));
                assert forall|a: int, b: int| 0 <= a < b < lst.len() implies lst[a] != lst[b] by {
                    if b == lst.len() - 1 {
                        assert(lst[a] == ac_pre[ai].1@[a]);
                        assert(lst[b] == peer);
                        if ac_pre[ai].1@[a] == peer {
                            assert(has_row(ps_pre, ac_pre[ai].1@[a], ac_pre[ai].0@));
                            let w = choose|w: int|
                                0 <= w < ps_pre.len() && (#[trigger] ps_pre[w]).0 == peer
                                    && ps_pre[w].1.address@ == ac_pre[ai].0@;
                            assert(pre.authenticated@.contains(ps_pre[w].0));
                        }
                    } else {
                        assert(lst[a] == ac_pre[ai].1@[a]);
                        assert(lst[b] == ac_pre[ai].1@[b]);
                    }
                }
            } else {
                assert(lst.len() == 1);
            }
        } else {
            assert(post.address_connections@[i] == ac_pre[i]);
            assert(distinct_u64(ac_pre[i].1@));
        }
    }
}


/// Re-establishes `wf` after a disconnect removed a peer from all three
/// registries.
#[verifier::rlimit(60)]
proof fn lemma_disconnect_wf(
    pre: ServerState,
    post: ServerState,
    peer: u64,
    k: int,
    ai: int,
    found: bool,
    ac_pre: Seq<(Vec<u8>, Vec<u64>)>,
    address: Seq<u8>,
)
    requires
        pre.wf(),
        0 <= k < pre.prover_states@.len(),
        pre.prover_states@[k].0 == peer,
        address == pre.prover_states@[k].1.address@,
        post.prover_states@ == pre.prover_states@.remove(k),
        distinct_u64(post.authenticated@),
        !post.authenticated@.contains(peer),
        forall|q: u64|
            q != peer ==> post.authenticated@.contains(q) == pre.authenticated@.contains(q),
        distinct_u64(post.connected@),
        forall|j: int|
            0 <= j < post.connected@.len() ==> pre.connected@.contains(
                #[trigger] post.connected@[j],
            ),
        ac_pre == pre.address_connections@,
        found,
        0 <= ai < ac_pre.len(),
        ac_pre[ai].0@ == address,
        post.address_connections@.len() == ac_pre.len() || post.address_connections@.len()
            == ac_pre.len() - 1,
        post.address_connections@.len() == ac_pre.len() ==> {
            &&& forall|j: int|
                0 <= j < ac_pre.len() && j != ai ==> post.address_connections@[j] == ac_pre[j]
            &&& post.address_connections@[ai].0@ == address
            &&& distinct_u64(post.address_connections@[ai].1@)
            &&& !post.address_connections@[ai].1@.contains(peer)
            &&& forall|q: u64|
                q != peer ==> post.address_connections@[ai].1@.contains(q) == ac_pre[
                    ai
                ].1@.contains(q)
        },
        post.address_connections@.len() == ac_pre.len() - 1 ==> {
            &&& post.address_connections@ == ac_pre.remove(ai)
            &&& forall|q: u64| q != peer ==> !ac_pre[ai].1@.contains(q)
        },
        post.nonce_seen@ == pre.nonce_seen@,
        post.pool_state == pre.pool_state,
    ensures
        post.wf(),
        !has_row_for(post.prover_states@, peer),
        forall|q: u64|
            q != peer ==> has_row_for(post.prover_states@, q) == has_row_for(
                pre.prover_states@,
                q,
            ),
{
    let psn = pre.prover_states@;
    let dropped = post.address_connections@.len() == ac_pre.len() - 1;
    // rows shift down across the removed index
    assert forall|j: int| 0 <= j < post.prover_states@.len()
        implies post.prover_states@[j] == (if j < k { psn[j] } else { psn[j + 1] }) by {}
    // no row is left for the peer
    assert(!has_row_for(post.prover_states@, peer)) by {
        if has_row_for(post.prover_states@, peer) {
            let w = choose|w: int|
                0 <= w < post.prover_states@.len() && (#[trigger] post.prover_states@[w]).0
                    == peer;
            let pw = if w < k { w } else { w + 1 };
            assert(psn[pw].0 == peer && psn[k].0 == peer);
        }
    }
    // other peers keep exactly their rows
    assert forall|q: u64| q != peer implies has_row_for(post.prover_states@, q) == has_row_for(
        psn,
        q,
    ) by {
        if has_row_for(post.prover_states@, q) {
            let w = choose|w: int|
                0 <= w < post.prover_states@.len() && (#[trigger] post.prover_states@[w]).0 == q;
            let pw = if w < k { w } else { w + 1 };
            assert(psn[pw].0 == q);
        }
        if has_row_for(psn, q) {
            let w = choose|w: int| 0 <= w < psn.len() && (#[trigger] psn[w]).0 == q;
            if w < k {
                assert(post.prover_states@[w].0 == q);
            } else {
                assert(post.prover_states@[w - 1].0 == q);
            }
        }
    }
    // registry keys agree
    assert forall|i: int, j: int| 0 <= i < j < post.prover_states@.len()
        implies post.prover_states@[i].0 != post.prover_states@[j].0 by {
        let pi = if i < k { i } else { i + 1 };
        let pj = if j < k { j } else { j + 1 };
        assert(post.prover_states@[i] == psn[pi]);
        assert(post.prover_states@[j] == psn[pj]);
    }
    assert forall|i: int| 0 <= i < post.authenticated@.len() implies has_row_for(
        post.prover_states@,
        #[trigger] post.authenticated@[i],
    ) by {
        let q = post.authenticated@[i];
        assert(post.authenticated@.contains(q));
        assert(q != peer);
        assert(pre.authenticated@.contains(q));
        let w = choose|w: int| 0 <= w < pre.authenticated@.len() && pre.authenticated@[w] == q;
        assert(has_row_for(psn, pre.authenticated@[w]));
    }
    assert forall|i: int| 0 <= i < post.prover_states@.len() implies post.authenticated@.contains(
        (#[trigger] post.prover_states@[i]).0,
    ) by {
        let pi = if i < k { i } else { i + 1 };
        assert(post.prover_states@[i] == psn[pi]);
        let q = psn[pi].0;
        assert(pre.authenticated@.contains(q));
        assert(q != peer);
    }
    assert forall|i: int| 0 <= i < post.connected@.len() implies !post.authenticated@.contains(
        #[trigger] post.connected@[i],
    ) by {
        let c = post.connected@[i];
        assert(pre.connected@.contains(c));
        let w = choose|w: int| 0 <= w < pre.connected@.len() && pre.connected@[w] == c;
        assert(!pre.authenticated@.contains(pre.connected@[w]));
        if post.authenticated@.contains(c) {
            assert(c != peer);
            assert(pre.authenticated@.contains(c));
        }
    }
    // the peer can only have been listed under its own address entry
    assert forall|m: int, j: int|
        0 <= m < ac_pre.len() && 0 <= j < ac_pre[m].1@.len() && ac_pre[m].1@[j] == peer
        implies m == ai by {
        assert(has_row(psn, ac_pre[m].1@[j], ac_pre[m].0@));
        let w = choose|w: int|
            0 <= w < psn.len() && (#[trigger] psn[w]).0 == peer && psn[w].1.address@
                == ac_pre[m].0@;
        if w != k {
            assert(psn[w].0 != psn[k].0);
        }
        assert(ac_pre[m].0@ == address);
        if m != ai {
            assert(ac_pre[m].0@ != ac_pre[ai].0@);
        }
    }
    // address keys distinct
    assert forall|i: int, j: int| 0 <= i < j < post.address_connections@.len()
        implies post.address_connections@[i].0@ != post.address_connections@[j].0@ by {
        if dropped {
            let pi = if i < ai { i } else { i + 1 };
            let pj = if j < ai { j } else { j + 1 };
            assert(post.address_connections@[i] == ac_pre[pi]);
            assert(post.address_connections@[j] == ac_pre[pj]);
        } else {
            assert(post.address_connections@[i].0@ == ac_pre[i].0@);
            assert(post.address_connections@[j].0@ == ac_pre[j].0@);
        }
    }
    // every listed peer still has a row
    assert forall|i: int, j: int|
        0 <= i < post.address_connections@.len() && 0 <= j
            < post.address_connections@[i].1@.len() implies has_row(
        post.prover_states@,
        #[trigger] post.address_connections@[i].1@[j],
        post.address_connections@[i].0@,
    ) by {
        let pin = if dropped { if i < ai { i } else { i + 1 } } else { i };
        let q = post.address_connections@[i].1@[j];
        if !dropped && i == ai {
            assert(post.address_connections@[i].1@.contains(q));
            assert(q != peer);
            assert(ac_pre[ai].1@.contains(q));
            let w = choose|w: int| 0 <= w < ac_pre[ai].1@.len() && ac_pre[ai].1@[w] == q;
            assert(has_row(psn, ac_pre[ai].1@[w], ac_pre[ai].0@));
            let v = choose|v: int|
                0 <= v < psn.len() && (#[trigger] psn[v]).0 == q && psn[v].1.address@
                    == ac_pre[ai].0@;
            assert(v != k);
            let vn = if v < k { v } else { v - 1 };
            assert(post.prover_states@[vn] == psn[v]);
        } else {
            assert(post.address_connections@[i] == ac_pre[pin]);
            assert(has_row(psn, ac_pre[pin].1@[j], ac_pre[pin].0@));
            let v = choose|v: int|
                0 <= v < psn.len() && (#[trigger] psn[v]).0 == ac_pre[pin].1@[j]
                    && psn[v].1.address@ == ac_pre[pin].0@;
            if dropped {
                assert(q != peer) by {
                    if q == peer {
                        assert(ac_pre[pin].1@[j] == peer);
                        assert(pin == ai);
                    }
                }
            } else {
                assert(q != peer) by {
                    if q == peer {
                        assert(ac_pre[pin].1@[j] == peer);
                        assert(pin == ai);
                        assert(ac_pre[ai].1@.contains(peer)) by {
                            assert(ac_pre[ai].1@[j] == peer);
                        }
                        assert(post.address_connections@[ai].1@.contains(peer)) by {
                            assert(post.address_connections@[ai].1@[j] == peer);
                        }
                    }
                }
            }
            assert(v != k);
            let vn = if v < k { v } else { v - 1 };
            assert(post.prover_states@[vn] == psn[v]);
        }
    }
    // every remaining prover is still listed under its address
    assert forall|i: int| 0 <= i < post.prover_states@.len() implies listed_under(
        post.address_connections@,
        (#[trigger] post.prover_states@[i]).1.address@,
        post.prover_states@[i].0,
    ) by {
        let pi = if i < k { i } else { i + 1 };
        assert(post.prover_states@[i] == psn[pi]);
        let q = psn[pi].0;
        let a = psn[pi].1.address@;
        assert(q != peer) by {
            if pi != k {
                assert(psn[pi].0 != psn[k].0);
            }
        }
        assert(listed_under(ac_pre, a, q));
        let m = choose|m: int|
            0 <= m < ac_pre.len() && (#[trigger] ac_pre[m]).0@ == a && ac_pre[m].1@.contains(q);
        if dropped {
            assert(m != ai) by {
                if m == ai {
                    let w = choose|w: int| 0 <= w < ac_pre[ai].1@.len() && ac_pre[ai].1@[w] == q;
                    assert(!ac_pre[ai].1@.contains(q));
                }
            }
            let mn = if m < ai { m } else { m - 1 };
            assert(post.address_connections@[mn] == ac_pre[m]);
        } else {
            if m == ai {
                assert(post.address_connections@[ai].0@ == a);
                assert(post.address_connections@[ai].1@.contains(q));
            } else {
                assert(post.address_connections@[m] == ac_pre[m]);
            }
        }
    }
    // lists stay duplicate-free
    assert forall|i: int| 0 <= i < post.address_connections@.len() implies distinct_u64(
        (#[trigger] post.address_connections@[i]).1@,
    ) by {
        if dropped {
            let pin = if i < ai { i } else { i + 1 };
            assert(post.address_connections@[i] == ac_pre[pin]);
            assert(distinct_u64(ac_pre[pin].1@));
        } else {
            if i == ai {
            } else {
                assert(post.address_connections@[i] == ac_pre[i]);
                assert(distinct_u64(ac_pre[i].1@));
            }
        }
    }
    // per-row well-formedness
    assert forall|i: int| 0 <= i < post.prover_states@.len() implies (
        #[trigger] post.prover_states@[i]).1.wf() by {
        let pi = if i < k { i } else { i + 1 };
        assert(post.prover_states@[i] == psn[pi]);
    }
}

/// `wf` is preserved when only row values (not peers or addresses), the
/// epoch fields, the pool state or the nonce set change.
proof fn lemma_wf_same_shape(pre: ServerState, post: ServerState)
    requires
        pre.wf(),
        post.connected@ == pre.connected@,
        post.authenticated@ == pre.authenticated@,
        post.address_connections@ == pre.address_connections@,
        post.prover_states@.len() == pre.prover_states@.len(),
        forall|i: int|
            0 <= i < pre.prover_states@.len() ==> {
                let a = (#[trigger] pre.prover_states@[i]);
                let b = post.prover_states@[i];
                &&& b.0 == a.0
                &&& b.1.address@ == a.1.address@
                &&& b.1.wf()
            },
        post.pool_state.wf(),
        distinct_u64(post.nonce_seen@),
    ensures post.wf(),
{
    assert forall|i: int| 0 <= i < post.authenticated@.len() implies has_row_for(
        post.prover_states@,
        #[trigger] post.authenticated@[i],
    ) by {
        assert(has_row_for(pre.prover_states@, pre.authenticated@[i]));
        let w = choose|w: int|
            0 <= w < pre.prover_states@.len() && (#[trigger] pre.prover_states@[w]).0
                == pre.authenticated@[i];
        assert(post.prover_states@[w].0 == post.authenticated@[i]);
    }
    assert forall|i: int| 0 <= i < post.prover_states@.len()
        implies post.authenticated@.contains((#[trigger] post.prover_states@[i]).0) by {
        assert(post.prover_states@[i].0 == pre.prover_states@[i].0);
        assert(pre.authenticated@.contains(pre.prover_states@[i].0));
    }
    assert forall|i: int, j: int|
        0 <= i < post.address_connections@.len() && 0 <= j
            < post.address_connections@[i].1@.len() implies has_row(
        post.prover_states@,
        #[trigger] post.address_connections@[i].1@[j],
        post.address_connections@[i].0@,
    ) by {
        assert(has_row(
            pre.prover_states@,
            pre.address_connections@[i].1@[j],
            pre.address_connections@[i].0@,
        ));
        let w = choose|w: int|
            0 <= w < pre.prover_states@.len() && (#[trigger] pre.prover_states@[w]).0
                == pre.address_connections@[i].1@[j] && pre.prover_states@[w].1.address@
                == pre.address_connections@[i].0@;
        assert(post.prover_states@[w].0 == post.address_connections@[i].1@[j]
            && post.prover_states@[w].1.address@ == post.address_connections@[i].0@);
    }
    assert forall|i: int| 0 <= i < post.prover_states@.len() implies listed_under(
        post.address_connections@,
        (#[trigger] post.prover_states@[i]).1.address@,
        post.prover_states@[i].0,
    ) by {
        assert(listed_under(
            pre.address_connections@,
            pre.prover_states@[i].1.address@,
            pre.prover_states@[i].0,
        ));
    }
    assert forall|i: int, j: int| 0 <= i < j < post.prover_states@.len()
        implies post.prover_states@[i].0 != post.prover_states@[j].0 by {
        assert(post.prover_states@[i].0 == pre.prover_states@[i].0);
        assert(post.prover_states@[j].0 == pre.prover_states@[j].0);
    }
    assert forall|i: int| 0 <= i < post.prover_states@.len() implies (
        #[trigger] post.prover_states@[i]).1.wf() by {
        assert(pre.prover_states@[i] == pre.prover_states@[i]);
    }
}

} // verus!
