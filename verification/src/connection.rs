//! Per-socket Stratum state machine.
//!
//! A connection walks `Connecting -> Subscribed -> Authorized` during the
//! handshake, which must finish within ten seconds of accept, then serves
//! submits. Malformed frames, protocol violations and idle peers close the
//! connection.

use vstd::prelude::*;
use crate::message::{StratumMessage, ResponseParams, ErrorObject};
use crate::message::{ERR_INVALID_PARAMS, ERR_INVALID_REQUEST};
use crate::util::{decode_hex, parse_hex_u64, hex_value, is_hex_digit, hex_val, u32_of_be};
use crate::{HANDSHAKE_TIMEOUT_MS, IDLE_TIMEOUT_MS};

verus! {

#[derive(PartialEq, Eq, Structural, Debug, Clone, Copy)]
pub enum ConnPhase {
    Connecting,
    Subscribed,
    Authorized,
    Closed,
}

/// What the connection asks its runtime to do after a step.
pub enum ConnStep {
    /// Send this message; the connection stays open.
    Reply(StratumMessage),
    /// Send this message, then close the socket.
    ReplyClose(StratumMessage),
    /// Authorize succeeded: send the reply and register the address with
    /// the server.
    Accept(StratumMessage, Vec<u8>),
    /// A well-formed submit: request id, epoch number from the job id, and
    /// the counter, for the server's precheck.
    Forward(u64, u32, u64),
    /// Close the socket without a reply.
    Close,
}

/// The protocol version this pool speaks (the bytes of `3.0.0`); the
/// accepted range has one element.
pub open spec fn supported_version(v: Seq<u8>) -> bool {
    v == seq![51u8, 46u8, 48u8, 46u8, 48u8]
}

/// A plausible payout address: the network prefix followed by lowercase
/// base-32-style characters, at most 63 bytes in all.
pub open spec fn valid_address(a: Seq<u8>) -> bool {
    &&& 6 <= a.len() <= 63
    &&& a[0] == 97 && a[1] == 108 && a[2] == 101 && a[3] == 111 && a[4] == 49
    &&& forall|i: int| 0 <= i < a.len() ==> (48 <= #[trigger] a[i] <= 57 || 97 <= a[i] <= 122)
}

/// The worker name up to an optional `.worker` suffix.
pub open spec fn address_part(wn: Seq<u8>) -> Seq<u8>
    decreases wn.len(),
{
    if wn.len() == 0 {
        wn
    } else if wn.last() == 46 || wn.drop_last().contains(46) {
        address_part(wn.drop_last())
    } else {
        wn
    }
}

pub struct Connection {
    pub phase: ConnPhase,
    /// When the socket was accepted.
    pub accept_ms: u64,
    /// When the last inbound frame arrived.
    pub last_received_ms: u64,
    pub user_agent: Vec<u8>,
    pub address: Option<Vec<u8>>,
}

/// The reply to a protocol violation: a response to the offending id
/// with no result and the invalid-request error code.
pub open spec fn violation_reply(r: ConnStep, id: u64) -> bool {
    r matches ConnStep::ReplyClose(m) && (m@ matches crate::message::MessageModel::Response(
        rid,
        res,
        err,
    ) && rid == id && res is None && (err matches Some(e) && e.code == ERR_INVALID_REQUEST))
}

/// The handshake deadline: a step at exactly the timeout still succeeds,
/// one millisecond later does not.
pub open spec fn handshake_in_time(accept_ms: u64, now_ms: u64) -> bool {
    now_ms - accept_ms <= HANDSHAKE_TIMEOUT_MS
}

impl Connection {
    pub fn new(accept_ms: u64) -> (r: Connection)
        ensures
            r.phase == ConnPhase::Connecting,
            r.accept_ms == accept_ms,
            r.last_received_ms == accept_ms,
            r.address is None,
    {
        Connection {
            phase: ConnPhase::Connecting,
            accept_ms,
            last_received_ms: accept_ms,
            user_agent: Vec::new(),
            address: None,
        }
    }

    /// Enforces the inbound-idle and handshake deadlines; returns true
    /// when the connection must close.
    pub fn check_timeout(&mut self, now_ms: u64) -> (close: bool)
        requires
            old(self).accept_ms <= now_ms,
            old(self).last_received_ms <= now_ms,
        ensures
            close == (now_ms - old(self).last_received_ms > IDLE_TIMEOUT_MS || (old(self).phase
                != ConnPhase::Authorized && old(self).phase != ConnPhase::Closed
                && !handshake_in_time(old(self).accept_ms, now_ms))),
            close ==> final(self).phase == ConnPhase::Closed,
            !close ==> *final(self) == *old(self),
    {
        if now_ms - self.last_received_ms > IDLE_TIMEOUT_MS {
            self.phase = ConnPhase::Closed;
            return true;
        }
        let in_handshake = match self.phase {
            ConnPhase::Connecting => true,
            ConnPhase::Subscribed => true,
            _ => false,
        };
        if in_handshake && now_ms - self.accept_ms > HANDSHAKE_TIMEOUT_MS {
            self.phase = ConnPhase::Closed;
            return true;
        }
        false
    }

    /// Handles one inbound message. Subscribe and authorize drive the
    /// handshake under the ten-second deadline; submits are translated
    /// for the server; anything unexpected is a protocol violation.
    pub fn on_message(&mut self, msg: StratumMessage, now_ms: u64) -> (r: ConnStep)
        requires
            old(self).accept_ms <= now_ms,
            old(self).last_received_ms <= now_ms,
        ensures
            final(self).accept_ms == old(self).accept_ms,
            final(self).last_received_ms == now_ms,
            (match msg {
                StratumMessage::Subscribe(id, ua, pv, sid) => {
                    if old(self).phase != ConnPhase::Connecting {
                        violation_reply(r, id) && final(self).phase == ConnPhase::Closed
                    } else if !handshake_in_time(old(self).accept_ms, now_ms) {
                        r is Close && final(self).phase == ConnPhase::Closed
                    } else if !supported_version(pv@) {
                        r matches ConnStep::ReplyClose(m) && final(self).phase
                            == ConnPhase::Closed && (m@ matches
                        crate::message::MessageModel::Response(rid, res, err) && rid == id && res
                            is None && (err matches Some(e) && e.code == ERR_INVALID_REQUEST))
                    } else {
                        &&& final(self).phase == ConnPhase::Subscribed
                        &&& final(self).user_agent@ == ua@
                        &&& r matches ConnStep::Reply(m) && (m@ matches
                        crate::message::MessageModel::Response(rid, res, err) && rid == id && err
                            is None && (res matches Some(
                            crate::message::ResponseModel::Subscribe(_, _),
                        )))
                    }
                },
                StratumMessage::Authorize(id, wn, _wp) => {
                    if old(self).phase != ConnPhase::Subscribed {
                        violation_reply(r, id) && final(self).phase == ConnPhase::Closed
                    } else if !handshake_in_time(old(self).accept_ms, now_ms) {
                        r is Close && final(self).phase == ConnPhase::Closed
                    } else if valid_address(address_part(wn@)) {
                        &&& final(self).phase == ConnPhase::Authorized
                        &&& (final(self).address matches Some(a) && a@ == address_part(wn@))
                        &&& r matches ConnStep::Accept(m, a2) && a2@ == address_part(wn@) && (m@
                            matches crate::message::MessageModel::Response(rid, res, err) && rid
                            == id && err is None && res == Some(
                            crate::message::ResponseModel::Bool(true),
                        ))
                    } else {
                        r matches ConnStep::ReplyClose(m) && final(self).phase
                            == ConnPhase::Closed && (m@ matches
                        crate::message::MessageModel::Response(rid, res, err) && rid == id && res
                            is None && (err matches Some(e) && e.code == ERR_INVALID_PARAMS))
                    }
                },
                StratumMessage::Submit(id, _wn, jid, ctr) => {
                    if old(self).phase != ConnPhase::Authorized {
                        violation_reply(r, id) && final(self).phase == ConnPhase::Closed
                    } else if jid@.len() == 8 && (forall|i: int|
                        0 <= i < jid@.len() ==> is_hex_digit(#[trigger] jid@[i])) && ctr@.len()
                        >= 1 && ctr@.len() <= 16 && (forall|i: int|
                        0 <= i < ctr@.len() ==> is_hex_digit(#[trigger] ctr@[i])) {
                        &&& final(self).phase == ConnPhase::Authorized
                        &&& r matches ConnStep::Forward(rid, ep, c) && rid == id && c == hex_value(
                            ctr@,
                        ) && ep == u32_of_be(
                            (hex_val(jid@[0]) * 16 + hex_val(jid@[1])) as u8,
                            (hex_val(jid@[2]) * 16 + hex_val(jid@[3])) as u8,
                            (hex_val(jid@[4]) * 16 + hex_val(jid@[5])) as u8,
                            (hex_val(jid@[6]) * 16 + hex_val(jid@[7])) as u8,
                        )
                    } else {
                        r is Close && final(self).phase == ConnPhase::Closed
                    }
                },
                StratumMessage::SetTarget(_) => violation_reply(r, 0) && final(self).phase
                    == ConnPhase::Closed,
                StratumMessage::Notify(..) => violation_reply(r, 0) && final(self).phase
                    == ConnPhase::Closed,
                StratumMessage::Response(id, _, _) => violation_reply(r, id) && final(self).phase
                    == ConnPhase::Closed,
            }),
    {
        self.last_received_ms = now_ms;
        match msg {
            StratumMessage::Subscribe(id, ua, pv, sid) => {
                if !matches!(self.phase, ConnPhase::Connecting) {
                    self.phase = ConnPhase::Closed;
                    return ConnStep::ReplyClose(violation(id));
                }
                if now_ms - self.accept_ms > HANDSHAKE_TIMEOUT_MS {
                    self.phase = ConnPhase::Closed;
                    return ConnStep::Close;
                }
                let mut expected: Vec<u8> = Vec::new();
                expected.push(51);
                expected.push(46);
                expected.push(48);
                expected.push(46);
                expected.push(48);
                proof {
                    assert(expected@ =~= seq![51u8, 46u8, 48u8, 46u8, 48u8]);
                }
                if !crate::util::bytes_eq(&pv, &expected) {
                    self.phase = ConnPhase::Closed;
                    return ConnStep::ReplyClose(violation(id));
                }
                self.phase = ConnPhase::Subscribed;
                self.user_agent = ua;
                let session = match sid {
                    Some(s) => s,
                    None => {
                        let mut d: Vec<u8> = Vec::new();
                        d.push(48);
                        d
                    },
                };
                ConnStep::Reply(StratumMessage::Response(
                    id,
                    Some(ResponseParams::Subscribe(session, None)),
                    None,
                ))
            },
            StratumMessage::Authorize(id, wn, _wp) => {
                if !matches!(self.phase, ConnPhase::Subscribed) {
                    self.phase = ConnPhase::Closed;
                    return ConnStep::ReplyClose(violation(id));
                }
                if now_ms - self.accept_ms > HANDSHAKE_TIMEOUT_MS {
                    self.phase = ConnPhase::Closed;
                    return ConnStep::Close;
                }
                let addr = strip_worker_suffix(&wn);
                if !check_address(&addr) {
                    self.phase = ConnPhase::Closed;
                    return ConnStep::ReplyClose(StratumMessage::Response(
                        id,
                        None,
                        Some(ErrorObject {
                            code: ERR_INVALID_PARAMS,
                            message: "Invalid address".as_bytes_vec(),
                        }),
                    ));
                }
                self.phase = ConnPhase::Authorized;
                let addr2 = crate::util::copy_bytes(&addr);
                self.address = Some(addr);
                ConnStep::Accept(
                    StratumMessage::Response(id, Some(ResponseParams::Bool(true)), None),
                    addr2,
                )
            },
            StratumMessage::Submit(id, _wn, jid, ctr) => {
                if !matches!(self.phase, ConnPhase::Authorized) {
                    self.phase = ConnPhase::Closed;
                    return ConnStep::ReplyClose(violation(id));
                }
                let job_bytes = match decode_hex(&jid) {
                    Some(b) => b,
                    None => {
                        self.phase = ConnPhase::Closed;
                        return ConnStep::Close;
                    },
                };
                if job_bytes.len() != 4 {
                    self.phase = ConnPhase::Closed;
                    return ConnStep::Close;
                }
                let counter = match parse_hex_u64(&ctr) {
                    Some(c) => c,
                    None => {
                        self.phase = ConnPhase::Closed;
                        return ConnStep::Close;
                    },
                };
                let epoch = crate::util::u32_from_be(&job_bytes, 0);
                ConnStep::Forward(id, epoch, counter)
            },
            StratumMessage::SetTarget(_) => {
                self.phase = ConnPhase::Closed;
                ConnStep::ReplyClose(violation(0))
            },
            StratumMessage::Notify(..) => {
                self.phase = ConnPhase::Closed;
                ConnStep::ReplyClose(violation(0))
            },
            StratumMessage::Response(id, _, _) => {
                self.phase = ConnPhase::Closed;
                ConnStep::ReplyClose(violation(id))
            },
        }
    }
}

/// The reply to a message that is wrong for the connection's state.
fn violation(id: u64) -> (r: StratumMessage)
    ensures
        r matches StratumMessage::Response(rid, res, err) && rid == id && res is None && (err
            matches Some(e) && e.code == ERR_INVALID_REQUEST),
{
    StratumMessage::Response(
        id,
        None,
        Some(ErrorObject { code: ERR_INVALID_REQUEST, message: "Invalid request".as_bytes_vec() }),
    )
}

/// The worker name up to the first dot.
fn strip_worker_suffix(wn: &Vec<u8>) -> (r: Vec<u8>)
    ensures r@ == address_part(wn@),
{
    let mut cut: usize = wn.len();
    let mut i: usize = 0;
    while i < wn.len()
        invariant
            0 <= i <= wn@.len(),
            cut == wn@.len() || (0 <= cut < i && wn@[cut as int] == 46 && forall|j: int|
                0 <= j < cut ==> wn@[j] != 46),
            cut == wn@.len() ==> forall|j: int| 0 <= j < i ==> wn@[j] != 46,
        decreases wn@.len() - i,
    {
        if cut == wn.len() && wn[i] == 46 {
            cut = i;
        }
        i = i + 1;
    }
    let mut r: Vec<u8> = Vec::new();
    let mut j: usize = 0;
    while j < cut
        invariant
            0 <= j <= cut <= wn@.len(),
            r@ == wn@.subrange(0, j as int),
        decreases cut - j,
    {
        r.push(wn[j]);
        proof {
            assert(wn@.subrange(0, j + 1) =~= wn@.subrange(0, j as int).push(wn@[j as int]));
        }
        j = j + 1;
    }
    proof {
        lemma_address_part(wn@, cut as int);
    }
    r
}

/// `address_part` is the prefix before the first dot.
proof fn lemma_address_part(wn: Seq<u8>, cut: int)
    requires
        0 <= cut <= wn.len(),
        cut < wn.len() ==> wn[cut] == 46,
        forall|j: int| 0 <= j < cut ==> wn[j] != 46,
        cut == wn.len() ==> forall|j: int| 0 <= j < wn.len() ==> wn[j] != 46,
    ensures address_part(wn) == wn.subrange(0, cut),
    decreases wn.len(),
{
    if wn.len() == 0 {
        assert(address_part(wn) =~= wn.subrange(0, cut));
    } else if wn.last() == 46 || wn.drop_last().contains(46) {
        let d = wn.drop_last();
        assert(cut < wn.len()) by {
            if cut == wn.len() {
                if wn.last() == 46 {
                    assert(wn[wn.len() - 1] == 46);
                } else {
                    let w = choose|w: int| 0 <= w < d.len() && d[w] == 46;
                    assert(wn[w] == 46);
                }
            }
        }
        assert(cut <= d.len());
        assert forall|j: int| 0 <= j < cut implies d[j] != 46 by {
            assert(d[j] == wn[j]);
        }
        if cut < d.len() {
            assert(d[cut as int] == wn[cut as int]);
        }
        if cut == d.len() {
            assert forall|j: int| 0 <= j < d.len() implies d[j] != 46 by {
                assert(d[j] == wn[j]);
            }
        }
        lemma_address_part(d, cut);
        assert(d.subrange(0, cut) =~= wn.subrange(0, cut));
    } else {
        // no dot anywhere: the whole name is the address
        assert(cut == wn.len()) by {
            if cut < wn.len() {
                if cut == wn.len() - 1 {
                    assert(wn.last() == 46);
                } else {
                    assert(wn.drop_last()[cut] == 46);
                    assert(wn.drop_last().contains(46));
                }
            }
        }
        assert(address_part(wn) == wn);
        assert(wn.subrange(0, cut) =~= wn);
    }
}

/// Checks the address shape: prefix and character set.
fn check_address(a: &Vec<u8>) -> (r: bool)
    ensures r == valid_address(a@),
{
    let n = a.len();
    if n < 6 || n > 63 {
        return false;
    }
    if a[0] != 97 || a[1] != 108 || a[2] != 101 || a[3] != 111 || a[4] != 49 {
        return false;
    }
    let mut j: usize = 0;
    while j < n
        invariant
            0 <= j <= n,
            n == a@.len(),
            forall|t: int| 0 <= t < j ==> (48 <= #[trigger] a@[t] <= 57 || 97 <= a@[t] <= 122),
        decreases n - j,
    {
        let b = a[j];
        if !((48 <= b && b <= 57) || (97 <= b && b <= 122)) {
            return false;
        }
        j = j + 1;
    }
    true
}

} // verus!
