use stratum_pool::server::{ServerState, ServerAction, SubmitCheck};
use stratum_pool::message::{StratumMessage, ResponseParams};
use stratum_pool::pplns::AccountingMessage;

fn pool() -> ServerState {
    ServerState::new(b"aleo1pool".to_vec())
}

fn authed_pool() -> ServerState {
    let mut s = pool();
    s.prover_connected(1);
    assert!(s.prover_authenticated(1, b"aleo1prover".to_vec()));
    s
}

fn error_code(m: &StratumMessage) -> i64 {
    match m {
        StratumMessage::Response(_, _, Some(e)) => e.code,
        _ => panic!("expected an error response"),
    }
}

#[test]
fn registries_stay_in_step() {
    let mut s = pool();
    s.prover_connected(1);
    s.prover_connected(2);
    assert_eq!(s.connected.len(), 2);
    assert!(s.prover_authenticated(1, b"aleo1a".to_vec()));
    assert!(s.prover_authenticated(2, b"aleo1a".to_vec()));
    // both peers in both registries, grouped under one address
    assert_eq!(s.authenticated.len(), 2);
    assert_eq!(s.prover_states.len(), 2);
    assert_eq!(s.address_connections.len(), 1);
    assert_eq!(s.address_connections[0].1.len(), 2);
    assert_eq!(s.connected.len(), 0);
    // a second authorize of the same peer is a no-op
    assert!(!s.prover_authenticated(1, b"aleo1b".to_vec()));
    assert_eq!(s.prover_states.len(), 2);
}

#[test]
fn disconnect_cleans_all_registries() {
    let mut s = authed_pool();
    s.prover_disconnected(1);
    assert_eq!(s.authenticated.len(), 0);
    assert_eq!(s.prover_states.len(), 0);
    assert_eq!(s.address_connections.len(), 0);
    assert_eq!(s.connected.len(), 0);
}

#[test]
fn duplicate_epoch_number_is_a_no_op() {
    let mut s = authed_pool();
    let a1 = s.new_epoch_hash(vec![0xAA; 32], 5, 1 << 60);
    assert_eq!(a1.len(), 2);
    let before = s.nonce_seen.len();
    let a2 = s.new_epoch_hash(vec![0xBB; 32], 5, 1 << 59);
    assert_eq!(a2.len(), 0);
    assert_eq!(s.latest_proof_target, 1 << 60);
    assert_eq!(s.nonce_seen.len(), before);
    let a3 = s.new_epoch_hash(vec![0xBB; 32], 4, 1);
    assert_eq!(a3.len(), 0);
}

#[test]
fn fanout_sends_target_then_clean_notify() {
    let mut s = authed_pool();
    let actions = s.new_epoch_hash(vec![0xAA; 32], 1, 1 << 60);
    assert_eq!(actions.len(), 2);
    match &actions[0] {
        ServerAction::Send(peer, StratumMessage::SetTarget(t)) => {
            assert_eq!(*peer, 1);
            assert_eq!(*t, 512);
        }
        _ => panic!("expected a set_target"),
    }
    match &actions[1] {
        ServerAction::Send(peer, StratumMessage::Notify(jid, eh, addr, clean)) => {
            assert_eq!(*peer, 1);
            assert_eq!(jid, &b"00000001".to_vec());
            assert_eq!(eh.len(), 64);
            assert_eq!(addr, &Some(b"aleo1pool".to_vec()));
            assert!(*clean);
        }
        _ => panic!("expected a notify"),
    }
}

#[test]
fn submit_precheck_orders_the_errors() {
    let mut s = authed_pool();
    // no epoch yet: an authenticated peer gets a stale-share error
    match s.submit_precheck(1, 1, 0) {
        SubmitCheck::Reject(m) => assert_eq!(error_code(&m), -32001),
        _ => panic!("expected a rejection"),
    }
    // an unknown peer is unauthorized even before the epoch check
    match s.submit_precheck(1, 99, 0) {
        SubmitCheck::Reject(m) => assert_eq!(error_code(&m), -32000),
        _ => panic!("expected a rejection"),
    }
    s.new_epoch_hash(vec![0xAA; 32], 7, 1 << 60);
    // a submit against the old epoch number is stale
    match s.submit_precheck(1, 1, 6) {
        SubmitCheck::Reject(m) => assert_eq!(error_code(&m), -32001),
        _ => panic!("expected a rejection"),
    }
    match s.submit_precheck(1, 1, 7) {
        SubmitCheck::NeedVerify { epoch_hash, address, share_target } => {
            assert_eq!(epoch_hash, vec![0xAA; 32]);
            assert_eq!(address, b"aleo1prover".to_vec());
            assert_eq!(share_target, 512);
        }
        _ => panic!("expected verification parameters"),
    }
}

#[test]
fn accepted_share_credits_and_forwards() {
    let mut s = authed_pool();
    s.new_epoch_hash(vec![0xAA; 32], 7, 1 << 60);
    // the oracle found a nonce that does not beat the proof target
    let actions = s.submit_finish(5, 1, 10_000, Some((42, false)));
    assert_eq!(actions.len(), 2);
    match &actions[0] {
        ServerAction::Send(1, StratumMessage::Response(5, Some(ResponseParams::Bool(true)), None)) => {}
        _ => panic!("expected an ok reply"),
    }
    match &actions[1] {
        ServerAction::Account(AccountingMessage::NewShare(addr, weight, _eh)) => {
            assert_eq!(addr, &b"aleo1prover".to_vec());
            assert_eq!(*weight, 512);
        }
        _ => panic!("expected an accounting record"),
    }
    assert_eq!(s.nonce_seen, vec![42]);
}

#[test]
fn full_solution_goes_upstream() {
    let mut s = authed_pool();
    s.new_epoch_hash(vec![0xAA; 32], 7, 1 << 60);
    let actions = s.submit_finish(5, 1, 10_000, Some((42, true)));
    assert_eq!(actions.len(), 3);
    match &actions[2] {
        ServerAction::Upstream(rec) => {
            assert_eq!(rec.nonce, 42);
            assert_eq!(rec.address, b"aleo1prover".to_vec());
        }
        _ => panic!("expected an upstream submission"),
    }
}

#[test]
fn duplicate_nonce_is_rejected_until_cleared() {
    let mut s = authed_pool();
    s.new_epoch_hash(vec![0xAA; 32], 7, 1 << 60);
    let first = s.submit_finish(5, 1, 10_000, Some((42, false)));
    assert_eq!(first.len(), 2);
    // the same nonce from any submit is refused while the epoch lasts
    let second = s.submit_finish(6, 1, 10_001, Some((42, false)));
    assert_eq!(second.len(), 1);
    match &second[0] {
        ServerAction::Send(_, m) => assert_eq!(error_code(m), -32003),
        _ => panic!("expected an error reply"),
    }
    // the 60-second tick clears the set and the nonce passes again
    s.clear_nonces();
    let third = s.submit_finish(7, 1, 10_002, Some((42, false)));
    assert_eq!(third.len(), 2);
    // a new epoch clears it as well
    s.new_epoch_hash(vec![0xBB; 32], 8, 1 << 60);
    assert_eq!(s.nonce_seen.len(), 0);
}

#[test]
fn invalid_proof_is_rejected() {
    let mut s = authed_pool();
    s.new_epoch_hash(vec![0xAA; 32], 7, 1 << 60);
    let actions = s.submit_finish(5, 1, 10_000, None);
    assert_eq!(actions.len(), 1);
    match &actions[0] {
        ServerAction::Send(_, m) => assert_eq!(error_code(m), -32002),
        _ => panic!("expected an error reply"),
    }
}

#[test]
fn share_accepted_at_target_one() {
    let mut s = authed_pool();
    s.new_epoch_hash(vec![0xAA; 32], 7, 1 << 60);
    // drop the prover's target to the minimum; any verified nonce counts
    s.prover_states[0].1.current_target = 1;
    let actions = s.submit_finish(5, 1, 10_000, Some((7, false)));
    assert_eq!(actions.len(), 2);
    match &actions[1] {
        ServerAction::Account(AccountingMessage::NewShare(_, weight, _)) => {
            assert_eq!(*weight, 1);
        }
        _ => panic!("expected an accounting record"),
    }
}

#[test]
fn fresh_prover_gets_an_initial_target() {
    let mut s = authed_pool();
    let before = s.initial_push(1);
    assert_eq!(before.len(), 1);
    match &before[0] {
        ServerAction::Send(1, StratumMessage::SetTarget(512)) => {}
        _ => panic!("expected the initial target"),
    }
    s.new_epoch_hash(vec![0xAA; 32], 3, 1 << 60);
    let after = s.initial_push(1);
    assert_eq!(after.len(), 2);
    match &after[1] {
        ServerAction::Send(1, StratumMessage::Notify(jid, _, _, true)) => {
            assert_eq!(jid, &b"00000003".to_vec());
        }
        _ => panic!("expected a notify"),
    }
    assert_eq!(s.initial_push(99).len(), 0);
}
