//! Stratum protocol messages.
//!
//! The wire form is line-delimited JSON-RPC; the message enum carries the
//! decoded fields as plain byte strings. String fields hold "plain" bytes:
//! printable ASCII with no quote or backslash, so every message has exactly
//! one wire form.

use vstd::prelude::*;

verus! {

/// A byte that may occur verbatim inside a JSON string without escaping.
pub open spec fn plain_byte(b: u8) -> bool {
    32 <= b <= 126 && b != 34 && b != 92
}

/// All bytes of the string are plain.
pub open spec fn plain(s: Seq<u8>) -> bool {
    forall|i: int| 0 <= i < s.len() ==> plain_byte(s[i])
}

/// Result payload of a response.
pub enum ResponseParams {
    /// Authorize and submit replies.
    Bool(bool),
    /// Subscribe reply: session id and optional nonce prefix.
    Subscribe(Vec<u8>, Option<Vec<u8>>),
}

/// A JSON-RPC error object.
pub struct ErrorObject {
    pub code: i64,
    pub message: Vec<u8>,
}

/// One Stratum message, client- or pool-originated.
pub enum StratumMessage {
    /// (id, user_agent, protocol_version, session_id)
    Subscribe(u64, Vec<u8>, Vec<u8>, Option<Vec<u8>>),
    /// (id, worker_name, worker_password)
    Authorize(u64, Vec<u8>, Vec<u8>),
    /// (id, worker_name, job_id, counter); job id and counter are hex text.
    Submit(u64, Vec<u8>, Vec<u8>, Vec<u8>),
    /// (difficulty_target)
    SetTarget(u64),
    /// (job_id, epoch_hash, address, clean_jobs)
    Notify(Vec<u8>, Vec<u8>, Option<Vec<u8>>, bool),
    /// (id, result, error); exactly one of the two is present.
    Response(u64, Option<ResponseParams>, Option<ErrorObject>),
}

/// Ghost model of a response payload.
pub ghost enum ResponseModel {
    Bool(bool),
    Subscribe(Seq<u8>, Option<Seq<u8>>),
}

/// Ghost model of an error object.
pub ghost struct ErrorModel {
    pub code: i64,
    pub message: Seq<u8>,
}

/// Ghost model of a message: the same shape over mathematical sequences.
pub ghost enum MessageModel {
    Subscribe(u64, Seq<u8>, Seq<u8>, Option<Seq<u8>>),
    Authorize(u64, Seq<u8>, Seq<u8>),
    Submit(u64, Seq<u8>, Seq<u8>, Seq<u8>),
    SetTarget(u64),
    Notify(Seq<u8>, Seq<u8>, Option<Seq<u8>>, bool),
    Response(u64, Option<ResponseModel>, Option<ErrorModel>),
}

impl View for ResponseParams {
    type V = ResponseModel;

    open spec fn view(&self) -> ResponseModel {
        match self {
            ResponseParams::Bool(b) => ResponseModel::Bool(*b),
            ResponseParams::Subscribe(sid, np) => ResponseModel::Subscribe(
                sid@,
                match np {
                    Some(p) => Some(p@),
                    None => None,
                },
            ),
        }
    }
}

impl View for ErrorObject {
    type V = ErrorModel;

    open spec fn view(&self) -> ErrorModel {
        ErrorModel { code: self.code, message: self.message@ }
    }
}

impl View for StratumMessage {
    type V = MessageModel;

    open spec fn view(&self) -> MessageModel {
        match self {
            StratumMessage::Subscribe(id, ua, pv, sid) => MessageModel::Subscribe(
                *id,
                ua@,
                pv@,
                match sid {
                    Some(s) => Some(s@),
                    None => None,
                },
            ),
            StratumMessage::Authorize(id, wn, wp) => MessageModel::Authorize(*id, wn@, wp@),
            StratumMessage::Submit(id, wn, jid, ctr) => MessageModel::Submit(
                *id,
                wn@,
                jid@,
                ctr@,
            ),
            StratumMessage::SetTarget(t) => MessageModel::SetTarget(*t),
            StratumMessage::Notify(jid, eh, addr, clean) => MessageModel::Notify(
                jid@,
                eh@,
                match addr {
                    Some(a) => Some(a@),
                    None => None,
                },
                *clean,
            ),
            StratumMessage::Response(id, res, err) => MessageModel::Response(
                *id,
                match res {
                    Some(p) => Some(p@),
                    None => None,
                },
                match err {
                    Some(e) => Some(e@),
                    None => None,
                },
            ),
        }
    }
}

/// The error codes the pool replies with.
pub const ERR_UNAUTHORIZED: i64 = -32000;

pub const ERR_STALE_SHARE: i64 = -32001;

pub const ERR_INVALID_PROOF: i64 = -32002;

pub const ERR_DUPLICATE_SHARE: i64 = -32003;

pub const ERR_INVALID_PARAMS: i64 = -32602;

pub const ERR_INVALID_REQUEST: i64 = -32600;

impl StratumMessage {
    /// Short name of the variant, for logs.
    pub fn name(&self) -> (r: &'static str)
    {
        match self {
            StratumMessage::Subscribe(..) => "Subscribe",
            StratumMessage::Authorize(..) => "Authorize",
            StratumMessage::Submit(..) => "Submit",
            StratumMessage::SetTarget(..) => "SetTarget",
            StratumMessage::Notify(..) => "Notify",
            StratumMessage::Response(..) => "Response",
        }
    }
}

} // verus!
