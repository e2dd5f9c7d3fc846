use stratum_pool::connection::{Connection, ConnPhase, ConnStep};
use stratum_pool::targeting::{ProverState, PoolState, effective_target};
use stratum_pool::meter::RateMeter;
use stratum_pool::message::StratumMessage;
use stratum_pool::upstream::{UpstreamSession, UpstreamPhase, UpstreamAction};
use stratum_pool::server::SolutionRecord;

fn subscribe_msg(id: u64) -> StratumMessage {
    StratumMessage::Subscribe(id, b"ua".to_vec(), b"3.0.0".to_vec(), None)
}

fn authorize_msg(id: u64, worker: &[u8]) -> StratumMessage {
    StratumMessage::Authorize(id, worker.to_vec(), b"pw".to_vec())
}

#[test]
fn handshake_at_the_deadline_succeeds() {
    let mut c = Connection::new(1_000);
    // exactly 10 000 ms after accept: still in time
    match c.on_message(subscribe_msg(1), 11_000) {
        ConnStep::Reply(_) => {}
        _ => panic!("subscribe at the deadline must succeed"),
    }
    assert_eq!(c.phase, ConnPhase::Subscribed);
    match c.on_message(authorize_msg(2, b"aleo1abcdef.worker"), 11_000) {
        ConnStep::Accept(_, addr) => assert_eq!(addr, b"aleo1abcdef".to_vec()),
        _ => panic!("authorize at the deadline must succeed"),
    }
    assert_eq!(c.phase, ConnPhase::Authorized);
}

#[test]
fn handshake_one_ms_late_fails() {
    let mut c = Connection::new(1_000);
    match c.on_message(subscribe_msg(1), 11_001) {
        ConnStep::Close => {}
        _ => panic!("a late subscribe must close the connection"),
    }
    assert_eq!(c.phase, ConnPhase::Closed);
}

#[test]
fn bad_version_is_refused() {
    let mut c = Connection::new(0);
    let m = StratumMessage::Subscribe(1, b"ua".to_vec(), b"2.0.0".to_vec(), None);
    match c.on_message(m, 5) {
        ConnStep::ReplyClose(StratumMessage::Response(_, _, Some(e))) => {
            assert_eq!(e.code, -32600);
        }
        _ => panic!("an unsupported version must be refused"),
    }
}

#[test]
fn bad_address_is_refused_with_invalid_params() {
    let mut c = Connection::new(0);
    c.on_message(subscribe_msg(1), 5);
    match c.on_message(authorize_msg(2, b"nonsense"), 6) {
        ConnStep::ReplyClose(StratumMessage::Response(_, _, Some(e))) => {
            assert_eq!(e.code, -32602);
        }
        _ => panic!("a bad address must be refused"),
    }
    assert_eq!(c.phase, ConnPhase::Closed);
}

#[test]
fn submit_is_translated_for_the_server() {
    let mut c = Connection::new(0);
    c.on_message(subscribe_msg(1), 5);
    c.on_message(authorize_msg(2, b"aleo1abcdef"), 6);
    let m = StratumMessage::Submit(3, b"w".to_vec(), b"0000002a".to_vec(), b"ff".to_vec());
    match c.on_message(m, 7) {
        ConnStep::Forward(id, epoch, counter) => {
            assert_eq!(id, 3);
            assert_eq!(epoch, 42);
            assert_eq!(counter, 255);
        }
        _ => panic!("a well-formed submit must be forwarded"),
    }
    // a job id that is not four bytes of hex closes the connection
    let bad = StratumMessage::Submit(4, b"w".to_vec(), b"zz".to_vec(), b"ff".to_vec());
    match c.on_message(bad, 8) {
        ConnStep::Close => {}
        _ => panic!("a malformed job id must close the connection"),
    }
}

#[test]
fn idle_peer_times_out() {
    let mut c = Connection::new(0);
    c.on_message(subscribe_msg(1), 5);
    c.on_message(authorize_msg(2, b"aleo1abcdef"), 6);
    assert!(!c.check_timeout(180_006));
    assert!(c.check_timeout(180_007));
    assert_eq!(c.phase, ConnPhase::Closed);
}

#[test]
fn target_promotion_needs_more_than_ten_percent() {
    let mut p = ProverState::new(b"aleo1a".to_vec());
    p.current_target = 100;
    // exactly +10 %: no promotion
    p.next_target = 110;
    assert_eq!(p.next_target(), 100);
    // just over +10 %: promoted
    p.next_target = 111;
    assert_eq!(p.next_target(), 111);
    // exactly -10 % of the new target: no promotion
    p.current_target = 100;
    p.next_target = 90;
    assert_eq!(p.next_target(), 100);
    p.next_target = 89;
    assert_eq!(p.next_target(), 89);
}

#[test]
fn share_rate_drives_the_candidate_target() {
    let mut p = ProverState::new(b"aleo1a".to_vec());
    // two shares of weight 512 within the 2-minute window:
    // rate = 1024 * 60 / 120 = 512, candidate = 512 * 20
    p.add_share(1_000, 512);
    p.add_share(2_000, 512);
    assert_eq!(p.next_target, 512 * 20);
    assert_eq!(p.current_target, 512);
}

#[test]
fn meter_prunes_and_caches() {
    let mut m = RateMeter::new(60);
    m.event(0, 60);
    m.event(59_999, 60);
    // both events inside the window: (60 + 60) * 60 / 60 = 120
    assert_eq!(m.speed(59_999), 120);
    // one minute later the first event has left the window
    m.event(60_500, 60);
    assert_eq!(m.speed(60_500), 120);

    let mut c = RateMeter::new_with_cache(60, 30);
    c.event(0, 60);
    let first = c.speed(0);
    assert_eq!(first, 60);
    c.event(1_000, 600);
    // the cached reading is served until the cache interval passes
    assert_eq!(c.speed(10_000), 60);
    assert_eq!(c.speed(31_000), 660);
}

#[test]
fn pool_modifier_scales_targets() {
    let mut pool = PoolState::new();
    for i in 0..400u64 {
        pool.add_share(10_000 + i, 512);
    }
    assert_eq!(pool.next_global_target_modifier(), 400);
    // a prover target of 1000 scaled by 400/200 = 2, capped by the proof target
    assert_eq!(effective_target(1 << 60, 1_000, 400), 2_000);
    assert_eq!(effective_target(1_500, 1_000, 400), 1_500);
    assert_eq!(effective_target(1 << 60, 0, 200), 1);
}

#[test]
fn upstream_handshake_walks_the_phases() {
    let mut u = UpstreamSession::new();
    assert!(matches!(u.connect(), Some(UpstreamAction::Dial)));
    assert_eq!(u.phase, UpstreamPhase::Connecting);
    assert!(matches!(u.on_connected(1, 99), Some(UpstreamAction::SendChallenge(99))));
    assert!(matches!(
        u.on_challenge_response(2, true),
        Some(UpstreamAction::SendChallengeResponse)
    ));
    assert_eq!(u.phase, UpstreamPhase::ChallengeVerified);
    u.on_handshake_complete(3);
    assert_eq!(u.phase, UpstreamPhase::Active);
    assert!(matches!(u.on_ping_tick(), Some(UpstreamAction::SendPing)));
}

#[test]
fn bad_signature_reconnects() {
    let mut u = UpstreamSession::new();
    u.connect();
    u.on_connected(1, 99);
    assert!(matches!(u.on_challenge_response(2, false), Some(UpstreamAction::Reconnect)));
    assert_eq!(u.phase, UpstreamPhase::Disconnected);
}

fn sol(nonce: u64) -> SolutionRecord {
    SolutionRecord { address: b"aleo1a".to_vec(), nonce, epoch_hash: b"aa".to_vec() }
}

#[test]
fn solutions_queue_while_down_and_flush_in_order() {
    let mut u = UpstreamSession::new();
    // the session is down: both solutions queue up
    assert!(u.submit_solution(sol(1), false).is_none());
    assert!(u.submit_solution(sol(2), false).is_none());
    u.connect();
    u.on_connected(1, 9);
    u.on_challenge_response(2, true);
    u.on_handshake_complete(3);
    // an active session with mailbox room sends directly
    assert!(matches!(u.submit_solution(sol(3), false), Some(UpstreamAction::SendSolution(_))));
    // a full mailbox queues again
    assert!(u.submit_solution(sol(4), true).is_none());
    let flushed = u.on_puzzle_tick();
    assert_eq!(flushed.len(), 4);
    assert!(matches!(flushed[0], UpstreamAction::SendPuzzleRequest));
    match (&flushed[1], &flushed[2], &flushed[3]) {
        (
            UpstreamAction::SendSolution(a),
            UpstreamAction::SendSolution(b),
            UpstreamAction::SendSolution(c),
        ) => {
            assert_eq!(a.nonce, 1);
            assert_eq!(b.nonce, 2);
            assert_eq!(c.nonce, 4);
        }
        _ => panic!("expected solutions in their original order"),
    }
    // failed sends requeue in order
    let failed = vec![sol(2), sol(4)];
    u.on_send_failures(failed);
    let again = u.on_puzzle_tick();
    assert_eq!(again.len(), 3);
}

#[test]
fn silent_upstream_reconnects() {
    let mut u = UpstreamSession::new();
    u.connect();
    u.on_connected(0, 9);
    u.on_challenge_response(1, true);
    u.on_handshake_complete(2);
    u.on_pong(10_000);
    assert!(u.check_timeout(190_000).is_none());
    assert!(matches!(u.check_timeout(190_001), Some(UpstreamAction::Reconnect)));
    assert_eq!(u.phase, UpstreamPhase::Disconnected);
}

#[test]
fn wrong_state_message_gets_invalid_request_and_close() {
    let mut c = Connection::new(0);
    c.on_message(subscribe_msg(1), 5);
    // a second subscribe is a protocol violation: error -32600, then close
    match c.on_message(subscribe_msg(9), 6) {
        ConnStep::ReplyClose(StratumMessage::Response(id, res, Some(e))) => {
            assert_eq!(id, 9);
            assert!(res.is_none());
            assert_eq!(e.code, -32600);
        }
        _ => panic!("expected an invalid-request reply before closing"),
    }
    assert_eq!(c.phase, ConnPhase::Closed);
}
