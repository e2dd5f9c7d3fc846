//! The Stratum wire codec.
//!
//! Messages travel as JSON-RPC objects, one per line. Every well-formed
//! message has exactly one wire form (`enc_msg`); `encode` produces it and
//! `decode` accepts exactly the strings `enc_msg` produces, so the two are
//! inverse on well-formed messages. Frames longer than 4096 bytes are
//! refused by the framer (`StratumCodec`).

use vstd::prelude::*;
use crate::message::{StratumMessage, ResponseParams, ErrorObject, MessageModel, ResponseModel,
    ErrorModel, plain, plain_byte};

verus! {

/// Longest accepted wire frame, newline excluded.
pub const MAX_FRAME: usize = 4096;

/// Decimal digits of `n`, most significant first, no leading zeros.
pub open spec fn dec_u64(n: u64) -> Seq<u8>
    decreases n,
{
    if n < 10 {
        seq![(48 + n) as u8]
    } else {
        dec_u64(n / 10).push((48 + n % 10) as u8)
    }
}

pub open spec fn is_digit(b: u8) -> bool {
    48 <= b <= 57
}

pub open spec fn l_subscribe() -> Seq<u8> {
    seq![123u8, 34u8, 109u8, 101u8, 116u8, 104u8, 111u8, 100u8, 34u8, 58u8, 34u8, 109u8, 105u8, 110u8, 105u8, 110u8, 103u8, 46u8, 115u8, 117u8, 98u8, 115u8, 99u8, 114u8, 105u8, 98u8, 101u8, 34u8, 44u8, 34u8, 105u8, 100u8, 34u8, 58u8]
}

exec fn l_subscribe_vec() -> (r: Vec<u8>)
    ensures r@ == l_subscribe(),
{
    let mut r: Vec<u8> = Vec::new();
    r.push(123);
    r.push(34);
    r.push(109);
    r.push(101);
    r.push(116);
    r.push(104);
    r.push(111);
    r.push(100);
    r.push(34);
    r.push(58);
    r.push(34);
    r.push(109);
    r.push(105);
    r.push(110);
    r.push(105);
    r.push(110);
    r.push(103);
    r.push(46);
    r.push(115);
    r.push(117);
    r.push(98);
    r.push(115);
    r.push(99);
    r.push(114);
    r.push(105);
    r.push(98);
    r.push(101);
    r.push(34);
    r.push(44);
    r.push(34);
    r.push(105);
    r.push(100);
    r.push(34);
    r.push(58);
    proof { assert(r@ =~= l_subscribe()); }
    r
}

pub open spec fn l_authorize() -> Seq<u8> {
    seq![123u8, 34u8, 109u8, 101u8, 116u8, 104u8, 111u8, 100u8, 34u8, 58u8, 34u8, 109u8, 105u8, 110u8, 105u8, 110u8, 103u8, 46u8, 97u8, 117u8, 116u8, 104u8, 111u8, 114u8, 105u8, 122u8, 101u8, 34u8, 44u8, 34u8, 105u8, 100u8, 34u8, 58u8]
}

exec fn l_authorize_vec() -> (r: Vec<u8>)
    ensures r@ == l_authorize(),
{
    let mut r: Vec<u8> = Vec::new();
    r.push(123);
    r.push(34);
    r.push(109);
    r.push(101);
    r.push(116);
    r.push(104);
    r.push(111);
    r.push(100);
    r.push(34);
    r.push(58);
    r.push(34);
    r.push(109);
    r.push(105);
    r.push(110);
    r.push(105);
    r.push(110);
    r.push(103);
    r.push(46);
    r.push(97);
    r.push(117);
    r.push(116);
    r.push(104);
    r.push(111);
    r.push(114);
    r.push(105);
    r.push(122);
    r.push(101);
    r.push(34);
    r.push(44);
    r.push(34);
    r.push(105);
    r.push(100);
    r.push(34);
    r.push(58);
    proof { assert(r@ =~= l_authorize()); }
    r
}

pub open spec fn l_submit() -> Seq<u8> {
    seq![123u8, 34u8, 109u8, 101u8, 116u8, 104u8, 111u8, 100u8, 34u8, 58u8, 34u8, 109u8, 105u8, 110u8, 105u8, 110u8, 103u8, 46u8, 115u8, 117u8, 98u8, 109u8, 105u8, 116u8, 34u8, 44u8, 34u8, 105u8, 100u8, 34u8, 58u8]
}

exec fn l_submit_vec() -> (r: Vec<u8>)
    ensures r@ == l_submit(),
{
    let mut r: Vec<u8> = Vec::new();
    r.push(123);
    r.push(34);
    r.push(109);
    r.push(101);
    r.push(116);
    r.push(104);
    r.push(111);
    r.push(100);
    r.push(34);
    r.push(58);
    r.push(34);
    r.push(109);
    r.push(105);
    r.push(110);
    r.push(105);
    r.push(110);
    r.push(103);
    r.push(46);
    r.push(115);
    r.push(117);
    r.push(98);
    r.push(109);
    r.push(105);
    r.push(116);
    r.push(34);
    r.push(44);
    r.push(34);
    r.push(105);
    r.push(100);
    r.push(34);
    r.push(58);
    proof { assert(r@ =~= l_submit()); }
    r
}

pub open spec fn l_set_target() -> Seq<u8> {
    seq![123u8, 34u8, 109u8, 101u8, 116u8, 104u8, 111u8, 100u8, 34u8, 58u8, 34u8, 109u8, 105u8, 110u8, 105u8, 110u8, 103u8, 46u8, 115u8, 101u8, 116u8, 95u8, 116u8, 97u8, 114u8, 103u8, 101u8, 116u8, 34u8, 44u8, 34u8, 112u8, 97u8, 114u8, 97u8, 109u8, 115u8, 34u8, 58u8, 91u8]
}

exec fn l_set_target_vec() -> (r: Vec<u8>)
    ensures r@ == l_set_target(),
{
    let mut r: Vec<u8> = Vec::new();
    r.push(123);
    r.push(34);
    r.push(109);
    r.push(101);
    r.push(116);
    r.push(104);
    r.push(111);
    r.push(100);
    r.push(34);
    r.push(58);
    r.push(34);
    r.push(109);
    r.push(105);
    r.push(110);
    r.push(105);
    r.push(110);
    r.push(103);
    r.push(46);
    r.push(115);
    r.push(101);
    r.push(116);
    r.push(95);
    r.push(116);
    r.push(97);
    r.push(114);
    r.push(103);
    r.push(101);
    r.push(116);
    r.push(34);
    r.push(44);
    r.push(34);
    r.push(112);
    r.push(97);
    r.push(114);
    r.push(97);
    r.push(109);
    r.push(115);
    r.push(34);
    r.push(58);
    r.push(91);
    proof { assert(r@ =~= l_set_target()); }
    r
}

pub open spec fn l_notify() -> Seq<u8> {
    seq![123u8, 34u8, 109u8, 101u8, 116u8, 104u8, 111u8, 100u8, 34u8, 58u8, 34u8, 109u8, 105u8, 110u8, 105u8, 110u8, 103u8, 46u8, 110u8, 111u8, 116u8, 105u8, 102u8, 121u8, 34u8, 44u8, 34u8, 112u8, 97u8, 114u8, 97u8, 109u8, 115u8, 34u8, 58u8, 91u8, 34u8]
}

exec fn l_notify_vec() -> (r: Vec<u8>)
    ensures r@ == l_notify(),
{
    let mut r: Vec<u8> = Vec::new();
    r.push(123);
    r.push(34);
    r.push(109);
    r.push(101);
    r.push(116);
    r.push(104);
    r.push(111);
    r.push(100);
    r.push(34);
    r.push(58);
    r.push(34);
    r.push(109);
    r.push(105);
    r.push(110);
    r.push(105);
    r.push(110);
    r.push(103);
    r.push(46);
    r.push(110);
    r.push(111);
    r.push(116);
    r.push(105);
    r.push(102);
    r.push(121);
    r.push(34);
    r.push(44);
    r.push(34);
    r.push(112);
    r.push(97);
    r.push(114);
    r.push(97);
    r.push(109);
    r.push(115);
    r.push(34);
    r.push(58);
    r.push(91);
    r.push(34);
    proof { assert(r@ =~= l_notify()); }
    r
}

pub open spec fn l_response() -> Seq<u8> {
    seq![123u8, 34u8, 105u8, 100u8, 34u8, 58u8]
}

exec fn l_response_vec() -> (r: Vec<u8>)
    ensures r@ == l_response(),
{
    let mut r: Vec<u8> = Vec::new();
    r.push(123);
    r.push(34);
    r.push(105);
    r.push(100);
    r.push(34);
    r.push(58);
    proof { assert(r@ =~= l_response()); }
    r
}

pub open spec fn l_params() -> Seq<u8> {
    seq![44u8, 34u8, 112u8, 97u8, 114u8, 97u8, 109u8, 115u8, 34u8, 58u8, 91u8, 34u8]
}

exec fn l_params_vec() -> (r: Vec<u8>)
    ensures r@ == l_params(),
{
    let mut r: Vec<u8> = Vec::new();
    r.push(44);
    r.push(34);
    r.push(112);
    r.push(97);
    r.push(114);
    r.push(97);
    r.push(109);
    r.push(115);
    r.push(34);
    r.push(58);
    r.push(91);
    r.push(34);
    proof { assert(r@ =~= l_params()); }
    r
}

pub open spec fn l_strcomma() -> Seq<u8> {
    seq![34u8, 44u8, 34u8]
}

exec fn l_strcomma_vec() -> (r: Vec<u8>)
    ensures r@ == l_strcomma(),
{
    let mut r: Vec<u8> = Vec::new();
    r.push(34);
    r.push(44);
    r.push(34);
    proof { assert(r@ =~= l_strcomma()); }
    r
}

pub open spec fn l_strcomma2() -> Seq<u8> {
    seq![34u8, 44u8]
}

exec fn l_strcomma2_vec() -> (r: Vec<u8>)
    ensures r@ == l_strcomma2(),
{
    let mut r: Vec<u8> = Vec::new();
    r.push(34);
    r.push(44);
    proof { assert(r@ =~= l_strcomma2()); }
    r
}

pub open spec fn l_closestr() -> Seq<u8> {
    seq![34u8, 93u8, 125u8]
}

exec fn l_closestr_vec() -> (r: Vec<u8>)
    ensures r@ == l_closestr(),
{
    let mut r: Vec<u8> = Vec::new();
    r.push(34);
    r.push(93);
    r.push(125);
    proof { assert(r@ =~= l_closestr()); }
    r
}

pub open spec fn l_close() -> Seq<u8> {
    seq![93u8, 125u8]
}

exec fn l_close_vec() -> (r: Vec<u8>)
    ensures r@ == l_close(),
{
    let mut r: Vec<u8> = Vec::new();
    r.push(93);
    r.push(125);
    proof { assert(r@ =~= l_close()); }
    r
}

pub open spec fn l_comma() -> Seq<u8> {
    seq![44u8]
}

exec fn l_comma_vec() -> (r: Vec<u8>)
    ensures r@ == l_comma(),
{
    let mut r: Vec<u8> = Vec::new();
    r.push(44);
    proof { assert(r@ =~= l_comma()); }
    r
}

pub open spec fn l_null() -> Seq<u8> {
    seq![110u8, 117u8, 108u8, 108u8]
}

exec fn l_null_vec() -> (r: Vec<u8>)
    ensures r@ == l_null(),
{
    let mut r: Vec<u8> = Vec::new();
    r.push(110);
    r.push(117);
    r.push(108);
    r.push(108);
    proof { assert(r@ =~= l_null()); }
    r
}

pub open spec fn l_true() -> Seq<u8> {
    seq![116u8, 114u8, 117u8, 101u8]
}

exec fn l_true_vec() -> (r: Vec<u8>)
    ensures r@ == l_true(),
{
    let mut r: Vec<u8> = Vec::new();
    r.push(116);
    r.push(114);
    r.push(117);
    r.push(101);
    proof { assert(r@ =~= l_true()); }
    r
}

pub open spec fn l_false() -> Seq<u8> {
    seq![102u8, 97u8, 108u8, 115u8, 101u8]
}

exec fn l_false_vec() -> (r: Vec<u8>)
    ensures r@ == l_false(),
{
    let mut r: Vec<u8> = Vec::new();
    r.push(102);
    r.push(97);
    r.push(108);
    r.push(115);
    r.push(101);
    proof { assert(r@ =~= l_false()); }
    r
}

pub open spec fn l_result() -> Seq<u8> {
    seq![44u8, 34u8, 114u8, 101u8, 115u8, 117u8, 108u8, 116u8, 34u8, 58u8]
}

exec fn l_result_vec() -> (r: Vec<u8>)
    ensures r@ == l_result(),
{
    let mut r: Vec<u8> = Vec::new();
    r.push(44);
    r.push(34);
    r.push(114);
    r.push(101);
    r.push(115);
    r.push(117);
    r.push(108);
    r.push(116);
    r.push(34);
    r.push(58);
    proof { assert(r@ =~= l_result()); }
    r
}

pub open spec fn l_resarr() -> Seq<u8> {
    seq![91u8, 34u8]
}

exec fn l_resarr_vec() -> (r: Vec<u8>)
    ensures r@ == l_resarr(),
{
    let mut r: Vec<u8> = Vec::new();
    r.push(91);
    r.push(34);
    proof { assert(r@ =~= l_resarr()); }
    r
}

pub open spec fn l_rbracket() -> Seq<u8> {
    seq![93u8]
}

exec fn l_rbracket_vec() -> (r: Vec<u8>)
    ensures r@ == l_rbracket(),
{
    let mut r: Vec<u8> = Vec::new();
    r.push(93);
    proof { assert(r@ =~= l_rbracket()); }
    r
}

pub open spec fn l_rbrace() -> Seq<u8> {
    seq![125u8]
}

exec fn l_rbrace_vec() -> (r: Vec<u8>)
    ensures r@ == l_rbrace(),
{
    let mut r: Vec<u8> = Vec::new();
    r.push(125);
    proof { assert(r@ =~= l_rbrace()); }
    r
}

pub open spec fn l_error() -> Seq<u8> {
    seq![44u8, 34u8, 101u8, 114u8, 114u8, 111u8, 114u8, 34u8, 58u8, 123u8, 34u8, 99u8, 111u8, 100u8, 101u8, 34u8, 58u8, 45u8]
}

exec fn l_error_vec() -> (r: Vec<u8>)
    ensures r@ == l_error(),
{
    let mut r: Vec<u8> = Vec::new();
    r.push(44);
    r.push(34);
    r.push(101);
    r.push(114);
    r.push(114);
    r.push(111);
    r.push(114);
    r.push(34);
    r.push(58);
    r.push(123);
    r.push(34);
    r.push(99);
    r.push(111);
    r.push(100);
    r.push(101);
    r.push(34);
    r.push(58);
    r.push(45);
    proof { assert(r@ =~= l_error()); }
    r
}

pub open spec fn l_message() -> Seq<u8> {
    seq![44u8, 34u8, 109u8, 101u8, 115u8, 115u8, 97u8, 103u8, 101u8, 34u8, 58u8, 34u8]
}

exec fn l_message_vec() -> (r: Vec<u8>)
    ensures r@ == l_message(),
{
    let mut r: Vec<u8> = Vec::new();
    r.push(44);
    r.push(34);
    r.push(109);
    r.push(101);
    r.push(115);
    r.push(115);
    r.push(97);
    r.push(103);
    r.push(101);
    r.push(34);
    r.push(58);
    r.push(34);
    proof { assert(r@ =~= l_message()); }
    r
}

pub open spec fn l_endobj() -> Seq<u8> {
    seq![34u8, 125u8, 125u8]
}

exec fn l_endobj_vec() -> (r: Vec<u8>)
    ensures r@ == l_endobj(),
{
    let mut r: Vec<u8> = Vec::new();
    r.push(34);
    r.push(125);
    r.push(125);
    proof { assert(r@ =~= l_endobj()); }
    r
}


/// Optional string field: `null` or a quoted plain string.
pub open spec fn jopt(o: Option<Seq<u8>>) -> Seq<u8> {
    match o {
        None => l_null(),
        Some(c) => seq![34u8] + c + seq![34u8],
    }
}

pub open spec fn jbool(b: bool) -> Seq<u8> {
    if b {
        l_true()
    } else {
        l_false()
    }
}

/// Encoding of a response payload.
pub open spec fn enc_res(r: ResponseModel) -> Seq<u8> {
    match r {
        ResponseModel::Bool(b) => jbool(b),
        ResponseModel::Subscribe(sid, np) => l_resarr() + sid + l_strcomma2() + jopt(np)
            + l_rbracket(),
    }
}

/// The unique wire form of a well-formed message.
pub open spec fn enc_msg(m: MessageModel) -> Seq<u8> {
    match m {
        MessageModel::Subscribe(id, ua, pv, sid) => l_subscribe() + dec_u64(id) + l_params() + ua
            + l_strcomma() + pv + l_strcomma2() + jopt(sid) + l_close(),
        MessageModel::Authorize(id, wn, wp) => l_authorize() + dec_u64(id) + l_params() + wn
            + l_strcomma() + wp + l_closestr(),
        MessageModel::Submit(id, wn, jid, ctr) => l_submit() + dec_u64(id) + l_params() + wn
            + l_strcomma() + jid + l_strcomma() + ctr + l_closestr(),
        MessageModel::SetTarget(t) => l_set_target() + dec_u64(t) + l_close(),
        MessageModel::Notify(jid, eh, ad, clean) => l_notify() + jid + l_strcomma() + eh
            + l_strcomma2() + jopt(ad) + l_comma() + jbool(clean) + l_close(),
        MessageModel::Response(id, res, err) => match (res, err) {
            (Some(p), None) => l_response() + dec_u64(id) + l_result() + enc_res(p) + l_rbrace(),
            (None, Some(e)) => l_response() + dec_u64(id) + l_error() + dec_u64((-e.code) as u64)
                + l_message() + e.message + l_endobj(),
            _ => Seq::<u8>::empty(),
        },
    }
}

pub open spec fn valid_opt(o: Option<Seq<u8>>) -> bool {
    match o {
        None => true,
        Some(c) => plain(c),
    }
}

pub open spec fn valid_res(r: ResponseModel) -> bool {
    match r {
        ResponseModel::Bool(_) => true,
        ResponseModel::Subscribe(sid, np) => plain(sid) && valid_opt(np),
    }
}

/// A message whose string fields can stand verbatim inside JSON strings,
/// and whose response carries exactly one of result and error, with an
/// error code in the JSON-RPC server range.
pub open spec fn valid_model(m: MessageModel) -> bool {
    match m {
        MessageModel::Subscribe(_id, ua, pv, sid) => plain(ua) && plain(pv) && valid_opt(sid),
        MessageModel::Authorize(_id, wn, wp) => plain(wn) && plain(wp),
        MessageModel::Submit(_id, wn, jid, ctr) => plain(wn) && plain(jid) && plain(ctr),
        MessageModel::SetTarget(_t) => true,
        MessageModel::Notify(jid, eh, ad, clean) => plain(jid) && plain(eh) && valid_opt(ad),
        MessageModel::Response(_id, res, err) => match (res, err) {
            (Some(p), None) => valid_res(p),
            (None, Some(e)) => -32768 <= e.code <= -1 && plain(e.message),
            _ => false,
        },
    }
}

/// `s` begins with `pre`.
pub open spec fn starts_with(s: Seq<u8>, pre: Seq<u8>) -> bool {
    pre.len() <= s.len() && s.subrange(0, pre.len() as int) == pre
}

/// The literal occupies `s` at `pos`.
pub open spec fn lit_present(s: Seq<u8>, pos: int, lit: Seq<u8>) -> bool {
    0 <= pos && pos + lit.len() <= s.len() && s.subrange(pos, pos + lit.len()) == lit
}

/// A canonical decimal for `n` sits at `pos`, ended by a non-digit.
pub open spec fn has_dec_at(s: Seq<u8>, pos: int, n: u64) -> bool {
    &&& 0 <= pos
    &&& pos + dec_u64(n).len() <= s.len()
    &&& s.subrange(pos, pos + dec_u64(n).len()) == dec_u64(n)
    &&& (pos + dec_u64(n).len() == s.len() || !is_digit(s[pos + dec_u64(n).len()]))
}

/// A plain string ended by a quote sits at `pos`.
pub open spec fn has_str_at(s: Seq<u8>, pos: int, c: Seq<u8>) -> bool {
    &&& 0 <= pos
    &&& plain(c)
    &&& pos + c.len() < s.len()
    &&& s.subrange(pos, pos + c.len()) == c
    &&& s[pos + c.len()] == 34
}

/// An optional field (`null` or quoted string) sits at `pos`.
pub open spec fn has_jopt_at(s: Seq<u8>, pos: int, o: Option<Seq<u8>>) -> bool {
    &&& 0 <= pos
    &&& valid_opt(o)
    &&& pos + jopt(o).len() <= s.len()
    &&& s.subrange(pos, pos + jopt(o).len()) == jopt(o)
}

/// Splitting a suffix: if the tail at `pos` is `x` followed by `y`, then
/// `x` occupies `pos` and `y` is the tail after it.
pub proof fn lemma_skip_split(s: Seq<u8>, pos: int, x: Seq<u8>, y: Seq<u8>)
    requires
        0 <= pos <= s.len(),
        s.skip(pos) == x + y,
    ensures
        s.subrange(pos, pos + x.len()) == x,
        s.skip(pos + x.len()) == y,
        pos + x.len() + y.len() == s.len(),
{
    assert(s.skip(pos).len() == s.len() - pos);
    assert(s.subrange(pos, pos + x.len()) =~= x) by {
        assert forall|i: int| 0 <= i < x.len() implies s.subrange(
            pos,
            pos + x.len(),
        )[i] == x[i] by {
            assert(s.skip(pos)[i] == s[pos + i]);
            assert((x + y)[i] == x[i]);
        }
    }
    assert(s.skip(pos + x.len()) =~= y) by {
        assert forall|i: int| 0 <= i < y.len() implies s.skip(pos + x.len())[i] == y[i] by {
            assert(s.skip(pos)[x.len() + i] == s[pos + x.len() + i]);
            assert((x + y)[x.len() + i] == y[i]);
        }
    }
}

/// Matches a literal at a position.
fn lit_at(input: &Vec<u8>, pos: usize, lit: &Vec<u8>) -> (r: Option<usize>)
    ensures
        r matches Some(p2) ==> p2 == pos + lit@.len() && lit_present(input@, pos as int, lit@),
        r is None ==> !lit_present(input@, pos as int, lit@),
{
    if pos > input.len() || lit.len() > input.len() - pos {
        return None;
    }
    let ilen: usize = input.len();
    let mut i: usize = 0;
    while i < lit.len()
        invariant
            0 <= i <= lit@.len(),
            ilen == input@.len(),
            pos + lit@.len() <= input@.len(),
            forall|j: int| 0 <= j < i ==> input@[pos + j] == lit@[j],
        decreases lit@.len() - i,
    {
        if input[pos + i] != lit[i] {
            proof {
                if lit_present(input@, pos as int, lit@) {
                    assert(input@.subrange(pos as int, pos + lit@.len())[i as int]
                        == input@[pos + i]);
                }
            }
            return None;
        }
        i = i + 1;
    }
    proof {
        assert(input@.subrange(pos as int, pos + lit@.len()) =~= lit@);
    }
    Some(pos + lit.len())
}

/// Left-to-right value of a digit string.
pub open spec fn val(s: Seq<u8>) -> int
    decreases s.len(),
{
    if s.len() == 0 {
        0
    } else {
        val(s.drop_last()) * 10 + (s.last() - 48)
    }
}

proof fn lemma_val_dec(n: u64)
    ensures
        val(dec_u64(n)) == n,
        dec_u64(n).len() >= 1,
        forall|i: int| 0 <= i < dec_u64(n).len() ==> is_digit(#[trigger] dec_u64(n)[i]),
        n >= 10 ==> dec_u64(n)[0] == dec_u64((n / 10) as u64)[0],
        dec_u64(n)[0] == 48 ==> n == 0,
    decreases n,
{
    if n < 10 {
        assert(dec_u64(n) == seq![(48 + n) as u8]);
        assert(dec_u64(n).drop_last() =~= Seq::<u8>::empty());
        assert(val(Seq::<u8>::empty()) == 0);
    } else {
        lemma_val_dec(n / 10);
        let d = dec_u64(n);
        assert(d == dec_u64(n / 10).push((48 + n % 10) as u8));
        assert(d.drop_last() =~= dec_u64(n / 10));
        assert(d.last() == (48 + n % 10) as u8);
        assert(val(d) == val(dec_u64(n / 10)) * 10 + n % 10);
        assert forall|i: int| 0 <= i < d.len() implies is_digit(#[trigger] d[i]) by {
            if i < d.len() - 1 {
                assert(d[i] == dec_u64(n / 10)[i]);
            }
        }
        assert(d[0] == dec_u64(n / 10)[0]);
    }
}

proof fn lemma_val_nonneg(s: Seq<u8>)
    requires forall|i: int| 0 <= i < s.len() ==> is_digit(#[trigger] s[i]),
    ensures val(s) >= 0,
    decreases s.len(),
{
    if s.len() > 0 {
        assert forall|i: int| 0 <= i < s.drop_last().len() implies is_digit(
            #[trigger] s.drop_last()[i],
        ) by {
            assert(s.drop_last()[i] == s[i]);
        }
        lemma_val_nonneg(s.drop_last());
        assert(is_digit(s.last()));
    }
}

/// A digit string without a leading zero is the canonical decimal of its
/// value.
proof fn lemma_digits_canonical(s: Seq<u8>)
    requires
        s.len() > 0,
        forall|i: int| 0 <= i < s.len() ==> is_digit(#[trigger] s[i]),
        s[0] != 48 || s.len() == 1,
        val(s) <= u64::MAX,
    ensures s == dec_u64(val(s) as u64),
    decreases s.len(),
{
    lemma_val_nonneg(s);
    if s.len() == 1 {
        assert(s.drop_last() =~= Seq::<u8>::empty());
        assert(val(Seq::<u8>::empty()) == 0);
        assert(s.last() == s[0]);
        assert(val(s) == s[0] - 48);
        assert(dec_u64(val(s) as u64) == seq![(48 + val(s)) as u8]);
        assert(s =~= dec_u64(val(s) as u64));
    } else {
        let sp = s.drop_last();
        assert forall|i: int| 0 <= i < sp.len() implies is_digit(#[trigger] sp[i]) by {
            assert(sp[i] == s[i]);
        }
        assert(sp[0] == s[0]);
        lemma_val_lower(sp);
        lemma_val_nonneg(sp);
        assert(val(s) == val(sp) * 10 + (s.last() - 48));
        assert(val(sp) <= u64::MAX) by {
            assert(val(sp) * 10 >= val(sp)) by (nonlinear_arith)
                requires val(sp) >= 0;
        }
        lemma_digits_canonical(sp);
        let n = val(s) as u64;
        assert(n >= 10) by {
            assert(val(sp) >= 1);
            assert(val(sp) * 10 >= 10) by (nonlinear_arith)
                requires val(sp) >= 1;
        }
        assert(n / 10 == val(sp) && n % 10 == s.last() - 48) by {
            assert(val(sp) * 10 + (s.last() - 48) == n);
            assert(0 <= s.last() - 48 < 10);
        }
        assert(dec_u64(n) == dec_u64((n / 10) as u64).push((48 + n % 10) as u8));
        assert(s =~= sp.push(s.last()));
        assert(dec_u64((n / 10) as u64) == sp);
        assert((48 + n % 10) as u8 == s.last());
    }
}

/// A digit string with a nonzero leading digit has value at least 1.
proof fn lemma_val_lower(s: Seq<u8>)
    requires
        s.len() > 0,
        forall|i: int| 0 <= i < s.len() ==> is_digit(#[trigger] s[i]),
        s[0] != 48,
    ensures val(s) >= 1,
    decreases s.len(),
{
    if s.len() == 1 {
        assert(s.drop_last() =~= Seq::<u8>::empty());
        assert(val(Seq::<u8>::empty()) == 0);
        assert(s.last() == s[0]);
        assert(val(s) == s[0] - 48);
    } else {
        let sp = s.drop_last();
        assert forall|i: int| 0 <= i < sp.len() implies is_digit(#[trigger] sp[i]) by {
            assert(sp[i] == s[i]);
        }
        assert(sp[0] == s[0]);
        lemma_val_lower(sp);
        assert(val(s) == val(sp) * 10 + (s.last() - 48));
        assert(val(sp) * 10 >= 10) by (nonlinear_arith)
            requires val(sp) >= 1;
        assert(s.last() - 48 >= 0);
    }
}

/// Values of prefixes of a digit string never exceed the whole value.
proof fn lemma_val_take_le(s: Seq<u8>, k: int)
    requires
        0 <= k <= s.len(),
        forall|i: int| 0 <= i < s.len() ==> is_digit(#[trigger] s[i]),
    ensures val(s.take(k)) <= val(s),
    decreases s.len() - k,
{
    if k == s.len() {
        assert(s.take(k) =~= s);
    } else {
        lemma_val_take_le(s, k + 1);
        let t = s.take(k + 1);
        assert(t.drop_last() =~= s.take(k));
        assert forall|i: int| 0 <= i < t.len() implies is_digit(#[trigger] t[i]) by {
            assert(t[i] == s[i]);
        }
        assert forall|i: int| 0 <= i < s.take(k).len() implies is_digit(
            #[trigger] s.take(k)[i],
        ) by {
            assert(s.take(k)[i] == s[i]);
        }
        lemma_val_nonneg(s.take(k));
        assert(val(t) == val(s.take(k)) * 10 + (t.last() - 48));
        assert(val(s.take(k)) * 10 >= val(s.take(k))) by (nonlinear_arith)
            requires val(s.take(k)) >= 0;
        assert(is_digit(s[k]));
    }
}

/// Parses a canonical decimal `u64` at `pos`.
#[verifier::rlimit(60)]
fn parse_u64_at(input: &Vec<u8>, pos: usize) -> (r: Option<(u64, usize)>)
    ensures
        r matches Some((n, j)) ==> {
            &&& pos + dec_u64(n).len() == j <= input@.len()
            &&& input@.subrange(pos as int, j as int) == dec_u64(n)
            &&& (j == input@.len() || !is_digit(input@[j as int]))
        },
        forall|n: u64|
            has_dec_at(input@, pos as int, n) ==> r is Some && r.unwrap().0 == n
                && r.unwrap().1 == pos + dec_u64(n).len(),
{
    let len = input.len();
    if pos >= len || !(48 <= input[pos] && input[pos] <= 57) {
        proof {
            assert forall|n: u64| !has_dec_at(input@, pos as int, n) by {
                lemma_val_dec(n);
                if has_dec_at(input@, pos as int, n) {
                    assert(input@.subrange(pos as int, pos + dec_u64(n).len())[0]
                        == input@[pos as int]);
                    assert(is_digit(input@[pos as int]));
                }
            }
        }
        return None;
    }
    if input[pos] == 48 {
        // a canonical number starts with zero only when it is zero itself
        if pos + 1 < len && 48 <= input[pos + 1] && input[pos + 1] <= 57 {
            proof {
                assert forall|n: u64| !has_dec_at(input@, pos as int, n) by {
                    lemma_val_dec(n);
                    if has_dec_at(input@, pos as int, n) {
                        assert(input@.subrange(pos as int, pos + dec_u64(n).len())[0]
                            == input@[pos as int]);
                        assert(dec_u64(n)[0] == 48);
                        assert(n == 0);
                        assert(dec_u64(n).len() == 1);
                        assert(!is_digit(input@[pos + 1]));
                    }
                }
            }
            return None;
        }
        proof {
            assert(dec_u64(0) == seq![48u8]);
            assert(input@.subrange(pos as int, pos as int + 1) =~= dec_u64(0));
            assert forall|n: u64| has_dec_at(input@, pos as int, n) implies n == 0 by {
                lemma_val_dec(n);
                if n != 0 {
                    assert(input@.subrange(pos as int, pos + dec_u64(n).len())[0]
                        == input@[pos as int]);
                    assert(dec_u64(n)[0] == 48);
                }
            }
        }
        return Some((0, pos + 1));
    }
    let mut j: usize = pos;
    let mut acc: u128 = 0;
    while j < len && 48 <= input[j] && input[j] <= 57
        invariant
            pos <= j <= len,
            len == input@.len(),
            pos < len,
            48 < input@[pos as int] <= 57,
            forall|t: int| pos <= t < j ==> is_digit(#[trigger] input@[t]),
            acc == val(input@.subrange(pos as int, j as int)),
            acc <= 0xffff_ffff_ffff_ffffu64 || j > pos,
            acc <= u64::MAX as u128 * 16 + 15,
            j > pos ==> acc >= 1,
        decreases len - j,
    {
        let ghost prefix = input@.subrange(pos as int, j as int);
        if acc > u64::MAX as u128 {
            proof {
                assert forall|n: u64| !has_dec_at(input@, pos as int, n) by {
                    if has_dec_at(input@, pos as int, n) {
                        lemma_val_dec(n);
                        let run = input@.subrange(pos as int, pos + dec_u64(n).len());
                        assert(run == dec_u64(n));
                        // the scanned prefix is a prefix of the canonical run
                        assert(j - pos <= dec_u64(n).len()) by {
                            if j - pos > dec_u64(n).len() {
                                assert(is_digit(input@[pos + dec_u64(n).len()]));
                            }
                        }
                        assert(prefix =~= run.take(j - pos));
                        assert forall|t: int| 0 <= t < run.len() implies is_digit(
                            #[trigger] run[t],
                        ) by {
                            assert(run[t] == dec_u64(n)[t]);
                        }
                        lemma_val_take_le(run, j - pos);
                        assert(val(run) == n);
                        assert(acc <= n);
                    }
                }
            }
            return None;
        }
        acc = acc * 10 + ((input[j] - 48) as u128);
        proof {
            let now = input@.subrange(pos as int, j as int + 1);
            assert(now.drop_last() =~= prefix);
            assert(now.last() == input@[j as int]);
        }
        j = j + 1;
    }
    proof {
        let run = input@.subrange(pos as int, j as int);
        assert(run.len() > 0);
        assert(run[0] == input@[pos as int]);
        assert forall|t: int| 0 <= t < run.len() implies is_digit(#[trigger] run[t]) by {
            assert(run[t] == input@[pos + t]);
        }
        lemma_val_lower(run);
    }
    if acc > u64::MAX as u128 {
        proof {
            let run = input@.subrange(pos as int, j as int);
            assert forall|n: u64| !has_dec_at(input@, pos as int, n) by {
                if has_dec_at(input@, pos as int, n) {
                    lemma_val_dec(n);
                    let crun = input@.subrange(pos as int, pos + dec_u64(n).len());
                    assert(crun == dec_u64(n));
                    assert(pos + dec_u64(n).len() >= j) by {
                        if pos + dec_u64(n).len() < j {
                            assert(is_digit(input@[pos + dec_u64(n).len()]));
                        }
                    }
                    assert(pos + dec_u64(n).len() <= j) by {
                        if pos + dec_u64(n).len() > j {
                            assert(dec_u64(n)[j - pos] == input@[j as int]) by {
                                assert(crun[j - pos] == input@[j as int]);
                            }
                            assert(is_digit(dec_u64(n)[j - pos]));
                            assert(j == input@.len() || !is_digit(input@[j as int]));
                        }
                    }
                    assert(run == dec_u64(n));
                    assert(val(run) == n);
                }
            }
        }
        return None;
    }
    proof {
        let run = input@.subrange(pos as int, j as int);
        lemma_digits_canonical(run);
        assert(run == dec_u64(acc as u64));
        assert forall|n: u64|
            has_dec_at(input@, pos as int, n) implies acc as u64 == n && j == pos + dec_u64(
            n,
        ).len() by {
            lemma_val_dec(n);
            let crun = input@.subrange(pos as int, pos + dec_u64(n).len());
            assert(crun == dec_u64(n));
            assert(pos + dec_u64(n).len() >= j) by {
                if pos + dec_u64(n).len() < j {
                    assert(is_digit(input@[pos + dec_u64(n).len()]));
                }
            }
            assert(pos + dec_u64(n).len() <= j) by {
                if pos + dec_u64(n).len() > j {
                    assert(dec_u64(n)[j - pos] == input@[j as int]) by {
                        assert(crun[j - pos] == input@[j as int]);
                    }
                    assert(is_digit(dec_u64(n)[j - pos]));
                }
            }
            assert(run == dec_u64(n));
            assert(val(run) == n);
        }
    }
    Some((acc as u64, j))
}


/// Scans plain bytes up to the closing quote. Returns the content and the
/// index of the quote itself.
fn parse_str_at(input: &Vec<u8>, pos: usize) -> (r: Option<(Vec<u8>, usize)>)
    ensures
        r matches Some((v, j)) ==> {
            &&& plain(v@)
            &&& pos + v@.len() == j < input@.len()
            &&& input@.subrange(pos as int, j as int) == v@
            &&& input@[j as int] == 34
        },
        forall|c: Seq<u8>|
            has_str_at(input@, pos as int, c) ==> r is Some && r.unwrap().0@ == c
                && r.unwrap().1 == pos + c.len(),
{
    let len = input.len();
    if pos >= len {
        proof {
            assert forall|c: Seq<u8>| !has_str_at(input@, pos as int, c) by {}
        }
        return None;
    }
    let mut j: usize = pos;
    let mut v: Vec<u8> = Vec::new();
    while j < len && input[j] != 34
        invariant
            pos <= j <= len,
            len == input@.len(),
            v@ == input@.subrange(pos as int, j as int),
            plain(v@),
            forall|t: int| pos <= t < j ==> input@[t] != 34,
        decreases len - j,
    {
        let b = input[j];
        if !(32 <= b && b <= 126) || b == 92 {
            proof {
                assert forall|c: Seq<u8>| !has_str_at(input@, pos as int, c) by {
                    if has_str_at(input@, pos as int, c) {
                        // the byte at j lies inside the plain content
                        assert(pos + c.len() > j) by {
                            if pos + c.len() <= j {
                                assert(input@[pos + c.len()] != 34);
                            }
                        }
                        assert(c[j - pos] == input@[j as int]) by {
                            assert(input@.subrange(pos as int, pos + c.len())[j - pos]
                                == input@[j as int]);
                        }
                        assert(plain_byte(c[j - pos]));
                    }
                }
            }
            return None;
        }
        v.push(b);
        proof {
            assert(v@ =~= input@.subrange(pos as int, j + 1));
        }
        j = j + 1;
    }
    if j == len {
        proof {
            assert forall|c: Seq<u8>| !has_str_at(input@, pos as int, c) by {
                if has_str_at(input@, pos as int, c) {
                    assert(input@[pos + c.len()] == 34);
                }
            }
        }
        return None;
    }
    proof {
        assert(input@[j as int] == 34);
        assert forall|c: Seq<u8>| has_str_at(input@, pos as int, c) implies v@ == c && j == pos
            + c.len() by {
            assert(pos + c.len() >= j) by {
                if pos + c.len() < j {
                    assert(input@[pos + c.len()] != 34);
                }
            }
            assert(pos + c.len() <= j) by {
                if pos + c.len() > j {
                    assert(c[j - pos] == input@[j as int]) by {
                        assert(input@.subrange(pos as int, pos + c.len())[j - pos]
                            == input@[j as int]);
                    }
                    assert(plain_byte(c[j - pos]));
                }
            }
        }
    }
    Some((v, j))
}

/// Parses an optional string: `null` or a quoted plain string.
fn parse_jopt_at(input: &Vec<u8>, pos: usize) -> (r: Option<(Option<Vec<u8>>, usize)>)
    ensures
        r matches Some((o, j)) ==> {
            &&& pos + jopt(match o {
                Some(v) => Some(v@),
                None => None,
            }).len() == j <= input@.len()
            &&& input@.subrange(pos as int, j as int) == jopt(match o {
                Some(v) => Some(v@),
                None => None,
            })
            &&& valid_opt(match o {
                Some(v) => Some(v@),
                None => None,
            })
        },
        forall|o: Option<Seq<u8>>|
            has_jopt_at(input@, pos as int, o) ==> r is Some && (match r.unwrap().0 {
                Some(v) => Some(v@),
                None => None::<Seq<u8>>,
            }) == o && r.unwrap().1 == pos + jopt(o).len(),
{
    let len = input.len();
    if pos < len && input[pos] == 34 {
        match parse_str_at(input, pos + 1) {
            Some((v, j)) => {
                proof {
                    assert(input@.subrange(pos as int, j + 1) =~= seq![34u8] + v@ + seq![34u8]);
                    assert forall|o: Option<Seq<u8>>|
                        has_jopt_at(input@, pos as int, o) implies (match o {
                        Some(c) => c == v@ && pos + jopt(o).len() == j + 1,
                        None => false,
                    }) by {
                        match o {
                            None => {
                                assert(input@.subrange(pos as int, pos + 4)[0]
                                    == input@[pos as int]);
                                assert(l_null()[0] == 110);
                            },
                            Some(c) => {
                                assert(input@.subrange(pos as int, pos + jopt(o).len())[0]
                                    == input@[pos as int]);
                                assert(has_str_at(input@, pos + 1, c)) by {
                                    assert forall|t: int| 0 <= t < c.len() implies input@[pos + 1
                                        + t] == c[t] by {
                                        assert(input@.subrange(pos as int, pos + jopt(o).len())[
                                            1 + t] == c[t]);
                                    }
                                    assert(input@.subrange(pos + 1, pos + 1 + c.len()) =~= c);
                                    assert(input@.subrange(pos as int, pos + jopt(o).len())[
                                        1 + c.len() as int] == 34);
                                }
                            },
                        }
                    }
                }
                Some((Some(v), j + 1))
            },
            None => {
                proof {
                    assert forall|o: Option<Seq<u8>>| !has_jopt_at(input@, pos as int, o) by {
                        if has_jopt_at(input@, pos as int, o) {
                            match o {
                                None => {
                                    assert(input@.subrange(pos as int, pos + 4)[0]
                                        == input@[pos as int]);
                                    assert(l_null()[0] == 110);
                                },
                                Some(c) => {
                                    assert(has_str_at(input@, pos + 1, c)) by {
                                        assert forall|t: int| 0 <= t < c.len() implies input@[pos
                                            + 1 + t] == c[t] by {
                                            assert(input@.subrange(
                                                pos as int,
                                                pos + jopt(o).len(),
                                            )[1 + t] == c[t]);
                                        }
                                        assert(input@.subrange(pos + 1, pos + 1 + c.len()) =~= c);
                                        assert(input@.subrange(pos as int, pos + jopt(o).len())[
                                            1 + c.len() as int] == 34);
                                    }
                                },
                            }
                        }
                    }
                }
                None
            },
        }
    } else {
        let nl = l_null_vec();
        match lit_at(input, pos, &nl) {
            Some(j) => {
                proof {
                    assert forall|o: Option<Seq<u8>>|
                        has_jopt_at(input@, pos as int, o) implies o is None by {
                        if o is Some {
                            let c = o.unwrap();
                            assert(input@.subrange(pos as int, pos + jopt(o).len())[0]
                                == input@[pos as int]);
                        }
                    }
                }
                Some((None, j))
            },
            None => {
                proof {
                    assert forall|o: Option<Seq<u8>>| !has_jopt_at(input@, pos as int, o) by {
                        if has_jopt_at(input@, pos as int, o) {
                            match o {
                                None => {},
                                Some(c) => {
                                    assert(input@.subrange(pos as int, pos + jopt(o).len())[0]
                                        == input@[pos as int]);
                                    assert(pos < input@.len());
                                },
                            }
                        }
                    }
                }
                None
            },
        }
    }
}

/// Parses `true` or `false`.
fn parse_jbool_at(input: &Vec<u8>, pos: usize) -> (r: Option<(bool, usize)>)
    ensures
        r matches Some((b, j)) ==> pos + jbool(b).len() == j <= input@.len()
            && input@.subrange(pos as int, j as int) == jbool(b),
        forall|b: bool|
            lit_present(input@, pos as int, jbool(b)) ==> r is Some && r.unwrap().0 == b
                && r.unwrap().1 == pos + jbool(b).len(),
{
    let tv = l_true_vec();
    match lit_at(input, pos, &tv) {
        Some(j) => {
            proof {
                if lit_present(input@, pos as int, jbool(false)) {
                    assert(input@.subrange(pos as int, pos + 5)[0] == input@[pos as int]);
                    assert(input@.subrange(pos as int, pos + 4)[0] == input@[pos as int]);
                }
            }
            Some((true, j))
        },
        None => {
            let fv = l_false_vec();
            match lit_at(input, pos, &fv) {
                Some(j) => Some((false, j)),
                None => None,
            }
        },
    }
}

/// Appends `src` to `dst`.
pub fn append_bytes(dst: &mut Vec<u8>, src: &Vec<u8>)
    ensures final(dst)@ == old(dst)@ + src@,
{
    let mut i: usize = 0;
    while i < src.len()
        invariant
            0 <= i <= src@.len(),
            dst@ == old(dst)@ + src@.take(i as int),
        decreases src@.len() - i,
    {
        dst.push(src[i]);
        proof {
            assert(old(dst)@ + src@.take(i + 1) =~= (old(dst)@ + src@.take(i as int)).push(
                src@[i as int],
            ));
        }
        i = i + 1;
    }
    proof {
        assert(src@.take(src@.len() as int) =~= src@);
    }
}

/// The canonical decimal digits of `n`.
fn dec_vec(n: u64) -> (r: Vec<u8>)
    ensures r@ == dec_u64(n),
    decreases n,
{
    if n < 10 {
        let mut r: Vec<u8> = Vec::new();
        r.push(48 + n as u8);
        proof { assert(r@ =~= dec_u64(n)); }
        r
    } else {
        let mut r = dec_vec(n / 10);
        r.push(48 + (n % 10) as u8);
        r
    }
}


/// An optional string field on the wire.
fn jopt_vec(o: &Option<Vec<u8>>) -> (r: Vec<u8>)
    ensures
        r@ == jopt(match o {
            Some(v) => Some(v@),
            None => None,
        }),
{
    match o {
        None => l_null_vec(),
        Some(v) => {
            let mut r: Vec<u8> = Vec::new();
            r.push(34);
            append_bytes(&mut r, v);
            r.push(34);
            proof {
                assert(r@ =~= seq![34u8] + v@ + seq![34u8]);
            }
            r
        },
    }
}

/// Encodes a message into its unique wire form.
pub fn encode(m: &StratumMessage) -> (r: Vec<u8>)
    requires valid_model(m@),
    ensures r@ == enc_msg(m@),
{
    let mut r: Vec<u8> = Vec::new();
    match m {
        StratumMessage::Subscribe(id, ua, pv, sid) => {
            append_bytes(&mut r, &l_subscribe_vec());
            append_bytes(&mut r, &dec_vec(*id));
            append_bytes(&mut r, &l_params_vec());
            append_bytes(&mut r, ua);
            append_bytes(&mut r, &l_strcomma_vec());
            append_bytes(&mut r, pv);
            append_bytes(&mut r, &l_strcomma2_vec());
            append_bytes(&mut r, &jopt_vec(sid));
            append_bytes(&mut r, &l_close_vec());
        },
        StratumMessage::Authorize(id, wn, wp) => {
            append_bytes(&mut r, &l_authorize_vec());
            append_bytes(&mut r, &dec_vec(*id));
            append_bytes(&mut r, &l_params_vec());
            append_bytes(&mut r, wn);
            append_bytes(&mut r, &l_strcomma_vec());
            append_bytes(&mut r, wp);
            append_bytes(&mut r, &l_closestr_vec());
        },
        StratumMessage::Submit(id, wn, jid, ctr) => {
            append_bytes(&mut r, &l_submit_vec());
            append_bytes(&mut r, &dec_vec(*id));
            append_bytes(&mut r, &l_params_vec());
            append_bytes(&mut r, wn);
            append_bytes(&mut r, &l_strcomma_vec());
            append_bytes(&mut r, jid);
            append_bytes(&mut r, &l_strcomma_vec());
            append_bytes(&mut r, ctr);
            append_bytes(&mut r, &l_closestr_vec());
        },
        StratumMessage::SetTarget(t) => {
            append_bytes(&mut r, &l_set_target_vec());
            append_bytes(&mut r, &dec_vec(*t));
            append_bytes(&mut r, &l_close_vec());
        },
        StratumMessage::Notify(jid, eh, ad, clean) => {
            append_bytes(&mut r, &l_notify_vec());
            append_bytes(&mut r, jid);
            append_bytes(&mut r, &l_strcomma_vec());
            append_bytes(&mut r, eh);
            append_bytes(&mut r, &l_strcomma2_vec());
            append_bytes(&mut r, &jopt_vec(ad));
            append_bytes(&mut r, &l_comma_vec());
            if *clean {
                append_bytes(&mut r, &l_true_vec());
            } else {
                append_bytes(&mut r, &l_false_vec());
            }
            append_bytes(&mut r, &l_close_vec());
        },
        StratumMessage::Response(id, res, err) => {
            append_bytes(&mut r, &l_response_vec());
            append_bytes(&mut r, &dec_vec(*id));
            match (res, err) {
                (Some(p), None) => {
                    append_bytes(&mut r, &l_result_vec());
                    match p {
                        ResponseParams::Bool(b) => {
                            if *b {
                                append_bytes(&mut r, &l_true_vec());
                            } else {
                                append_bytes(&mut r, &l_false_vec());
                            }
                        },
                        ResponseParams::Subscribe(sid, np) => {
                            append_bytes(&mut r, &l_resarr_vec());
                            append_bytes(&mut r, sid);
                            append_bytes(&mut r, &l_strcomma2_vec());
                            append_bytes(&mut r, &jopt_vec(np));
                            append_bytes(&mut r, &l_rbracket_vec());
                        },
                    }
                    append_bytes(&mut r, &l_rbrace_vec());
                },
                (None, Some(e)) => {
                    append_bytes(&mut r, &l_error_vec());
                    let mag: u64 = (-(e.code)) as u64;
                    append_bytes(&mut r, &dec_vec(mag));
                    append_bytes(&mut r, &l_message_vec());
                    append_bytes(&mut r, &e.message);
                    append_bytes(&mut r, &l_endobj_vec());
                },
                _ => {
                    proof { assert(false); }
                },
            }
        },
    }
    r
}


/// Decomposition of a `SetTarget` encoding into its parts and positions.
proof fn lemma_decomp_set_target(s: Seq<u8>, t: u64)
    requires s == enc_msg(MessageModel::SetTarget(t)),
    ensures
        starts_with(s, l_set_target()),
        has_dec_at(s, l_set_target().len() as int, t),
        lit_present(s, l_set_target().len() as int + dec_u64(t).len(), l_close()),
        s.len() == l_set_target().len() + dec_u64(t).len() + l_close().len(),
{
    let ll = l_set_target();
    let dd = dec_u64(t);
    let cc = l_close();
    assert(s.skip(0) =~= s);
    assert(s == ll + dd + cc);
    assert(s.skip(0) == ll + (dd + cc)) by {
        assert(ll + dd + cc =~= ll + (dd + cc));
    }
    lemma_skip_split(s, 0, ll, dd + cc);
    lemma_skip_split(s, ll.len() as int, dd, cc);
    assert(s.skip(ll.len() as int + dd.len()) == cc + Seq::<u8>::empty()) by {
        assert(cc + Seq::<u8>::empty() =~= cc);
    }
    lemma_skip_split(s, ll.len() as int + dd.len(), cc, Seq::<u8>::empty());
    assert(s[ll.len() as int + dd.len()] == 93) by {
        assert(s.skip(ll.len() as int + dd.len())[0] == s[ll.len() as int + dd.len()]);
    }
}

/// The parts and positions of a `SetTarget` wire form.
pub open spec fn decomposed_st(s: Seq<u8>, ms: MessageModel) -> bool {
    match ms {
        MessageModel::SetTarget(t) => {
            let p1 = l_set_target().len() as int;
            let p2 = p1 + dec_u64(t).len();
            &&& has_dec_at(s, p1, t)
            &&& lit_present(s, p2, l_close())
            &&& s.len() == p2 + l_close().len()
        },
        _ => false,
    }
}

/// Decodes a frame that begins like a `SetTarget`.
fn decode_set_target(input: &Vec<u8>) -> (r: Option<StratumMessage>)
    requires starts_with(input@, l_set_target()),
    ensures
        r matches Some(m) ==> valid_model(m@) && input@ == enc_msg(m@) && m@ is SetTarget,
        forall|ms: MessageModel|
            valid_model(ms) && ms is SetTarget && input@ == enc_msg(ms) ==> r is Some
                && r.unwrap()@ == ms,
{
    proof {
        assert forall|ms: MessageModel|
            valid_model(ms) && ms is SetTarget && input@ == enc_msg(ms) implies decomposed_st(
            input@,
            ms,
        ) by {
            match ms {
                MessageModel::SetTarget(t) => {
                    lemma_decomp_set_target(input@, t);
                },
                _ => {},
            }
        }
    }
    let lv = l_set_target_vec();
    let p1 = lv.len();
    let (t, j) = match parse_u64_at(input, p1) {
        Some(p) => p,
        None => {
            return None;
        },
    };
    let cv = l_close_vec();
    let j2 = match lit_at(input, j, &cv) {
        Some(j2) => j2,
        None => {
            return None;
        },
    };
    if j2 != input.len() {
        return None;
    }
    proof {
        assert(input@ =~= l_set_target() + dec_u64(t) + l_close());
    }
    Some(StratumMessage::SetTarget(t))
}

/// Decomposition of a `Subscribe` encoding.
#[verifier::rlimit(100)]
#[verifier::spinoff_prover]
proof fn lemma_decomp_subscribe(
    s: Seq<u8>,
    id: u64,
    ua: Seq<u8>,
    pv: Seq<u8>,
    sid: Option<Seq<u8>>,
)
    requires
        s == enc_msg(MessageModel::Subscribe(id, ua, pv, sid)),
        valid_model(MessageModel::Subscribe(id, ua, pv, sid)),
    ensures
        starts_with(s, l_subscribe()),
        has_dec_at(s, l_subscribe().len() as int, id),
        lit_present(s, l_subscribe().len() as int + dec_u64(id).len(), l_params()),
        has_str_at(s, l_subscribe().len() as int + dec_u64(id).len() + l_params().len(), ua),
        lit_present(
            s,
            l_subscribe().len() as int + dec_u64(id).len() + l_params().len() + ua.len(),
            l_strcomma(),
        ),
        has_str_at(
            s,
            l_subscribe().len() as int + dec_u64(id).len() + l_params().len() + ua.len()
                + l_strcomma().len(),
            pv,
        ),
        lit_present(
            s,
            l_subscribe().len() as int + dec_u64(id).len() + l_params().len() + ua.len()
                + l_strcomma().len() + pv.len(),
            l_strcomma2(),
        ),
        has_jopt_at(
            s,
            l_subscribe().len() as int + dec_u64(id).len() + l_params().len() + ua.len()
                + l_strcomma().len() + pv.len() + l_strcomma2().len(),
            sid,
        ),
        lit_present(
            s,
            l_subscribe().len() as int + dec_u64(id).len() + l_params().len() + ua.len()
                + l_strcomma().len() + pv.len() + l_strcomma2().len() + jopt(sid).len(),
            l_close(),
        ),
        s.len() == l_subscribe().len() as int + dec_u64(id).len() + l_params().len() + ua.len()
            + l_strcomma().len() + pv.len() + l_strcomma2().len() + jopt(sid).len()
            + l_close().len(),
{
    let c0 = l_subscribe();
    let c1 = dec_u64(id);
    let c2 = l_params();
    let c3 = ua;
    let c4 = l_strcomma();
    let c5 = pv;
    let c6 = l_strcomma2();
    let c7 = jopt(sid);
    let c8 = l_close();
    assert(s.skip(0) =~= s);
    assert(s.skip(0) == c0 + (c1 + (c2 + (c3 + (c4 + (c5 + (c6 + (c7 + c8)))))))) by {
        assert(c0 + c1 + c2 + c3 + c4 + c5 + c6 + c7 + c8 =~= c0 + (c1 + (c2 + (c3 + (c4 + (c5 + (
        c6 + (c7 + c8)))))))); 
    }
    let p1 = c0.len() as int;
    lemma_skip_split(s, 0, c0, c1 + (c2 + (c3 + (c4 + (c5 + (c6 + (c7 + c8)))))));
    lemma_skip_split(s, p1, c1, c2 + (c3 + (c4 + (c5 + (c6 + (c7 + c8))))));
    let p2 = p1 + c1.len();
    lemma_skip_split(s, p2, c2, c3 + (c4 + (c5 + (c6 + (c7 + c8)))));
    let p3 = p2 + c2.len();
    lemma_skip_split(s, p3, c3, c4 + (c5 + (c6 + (c7 + c8))));
    let p4 = p3 + c3.len();
    lemma_skip_split(s, p4, c4, c5 + (c6 + (c7 + c8)));
    let p5 = p4 + c4.len();
    lemma_skip_split(s, p5, c5, c6 + (c7 + c8));
    let p6 = p5 + c5.len();
    lemma_skip_split(s, p6, c6, c7 + c8);
    let p7 = p6 + c6.len();
    lemma_skip_split(s, p7, c7, c8);
    let p8 = p7 + c7.len();
    assert(s.skip(p8) == c8 + Seq::<u8>::empty()) by {
        assert(c8 + Seq::<u8>::empty() =~= c8);
    }
    lemma_skip_split(s, p8, c8, Seq::<u8>::empty());
    // boundaries
    assert(s[p2] == 44) by {
        assert(s.subrange(p2, p2 + c2.len())[0] == s[p2]);
    }
    assert(s[p3 + c3.len()] == 34) by {
        assert(s.subrange(p4, p4 + c4.len())[0] == s[p4]);
    }
    assert(s[p5 + c5.len()] == 34) by {
        assert(s.subrange(p6, p6 + c6.len())[0] == s[p6]);
    }
}

/// Decodes a frame that begins like a `Subscribe`.
#[verifier::rlimit(100)]
fn decode_subscribe(input: &Vec<u8>) -> (r: Option<StratumMessage>)
    requires starts_with(input@, l_subscribe()),
    ensures
        r matches Some(m) ==> valid_model(m@) && input@ == enc_msg(m@) && m@ is Subscribe,
        forall|ms: MessageModel|
            valid_model(ms) && ms is Subscribe && input@ == enc_msg(ms) ==> r is Some
                && r.unwrap()@ == ms,
{
    let lv = l_subscribe_vec();
    let p1 = lv.len();
    let r1 = parse_u64_at(input, p1);
    let pr = l_params_vec();
    let sc = l_strcomma_vec();
    let sc2 = l_strcomma2_vec();
    let cl = l_close_vec();
    proof {
        assert forall|ms: MessageModel|
            valid_model(ms) && ms is Subscribe && input@ == enc_msg(ms) implies decomposed_sub(
            input@,
            ms,
        ) by {
            match ms {
                MessageModel::Subscribe(id, ua, pv, sid) => {
                    lemma_decomp_subscribe(input@, id, ua, pv, sid);
                },
                _ => {},
            }
        }
    }
    let (id, j1) = match r1 {
        Some(p) => p,
        None => {
            return None;
        },
    };
    let j2 = match lit_at(input, j1, &pr) {
        Some(j) => j,
        None => {
            return None;
        },
    };
    let (ua, j3q) = match parse_str_at(input, j2) {
        Some(p) => p,
        None => {
            return None;
        },
    };
    let j4 = match lit_at(input, j3q, &sc) {
        Some(j) => j,
        None => {
            return None;
        },
    };
    let (pv, j5q) = match parse_str_at(input, j4) {
        Some(p) => p,
        None => {
            return None;
        },
    };
    let j6 = match lit_at(input, j5q, &sc2) {
        Some(j) => j,
        None => {
            return None;
        },
    };
    let (sid, j7) = match parse_jopt_at(input, j6) {
        Some(p) => p,
        None => {
            return None;
        },
    };
    let j8 = match lit_at(input, j7, &cl) {
        Some(j) => j,
        None => {
            return None;
        },
    };
    if j8 != input.len() {
        return None;
    }
    proof {
        assert(input@ =~= l_subscribe() + dec_u64(id) + l_params() + ua@ + l_strcomma() + pv@
            + l_strcomma2() + jopt(match sid {
            Some(ref v) => Some(v@),
            None => None,
        }) + l_close());
    }
    Some(StratumMessage::Subscribe(id, ua, pv, sid))
}

/// The parts and positions of a `Subscribe` wire form.
pub open spec fn decomposed_sub(s: Seq<u8>, ms: MessageModel) -> bool {
    match ms {
        MessageModel::Subscribe(id, ua, pv, sid) => {
            let p1 = l_subscribe().len() as int;
            let p2 = p1 + dec_u64(id).len();
            let p3 = p2 + l_params().len();
            let p4 = p3 + ua.len();
            let p5 = p4 + l_strcomma().len();
            let p6 = p5 + pv.len();
            let p7 = p6 + l_strcomma2().len();
            let p8 = p7 + jopt(sid).len();
            &&& has_dec_at(s, p1, id)
            &&& lit_present(s, p2, l_params())
            &&& has_str_at(s, p3, ua)
            &&& lit_present(s, p4, l_strcomma())
            &&& has_str_at(s, p5, pv)
            &&& lit_present(s, p6, l_strcomma2())
            &&& has_jopt_at(s, p7, sid)
            &&& lit_present(s, p8, l_close())
            &&& s.len() == p8 + l_close().len()
        },
        _ => false,
    }
}


/// The parts and positions of an `Authorize` wire form.
pub open spec fn decomposed_auth(s: Seq<u8>, ms: MessageModel) -> bool {
    match ms {
        MessageModel::Authorize(id, wn, wp) => {
            let p1 = l_authorize().len() as int;
            let p2 = p1 + dec_u64(id).len();
            let p3 = p2 + l_params().len();
            let p4 = p3 + wn.len();
            let p5 = p4 + l_strcomma().len();
            let p6 = p5 + wp.len();
            &&& has_dec_at(s, p1, id)
            &&& lit_present(s, p2, l_params())
            &&& has_str_at(s, p3, wn)
            &&& lit_present(s, p4, l_strcomma())
            &&& has_str_at(s, p5, wp)
            &&& lit_present(s, p6, l_closestr())
            &&& s.len() == p6 + l_closestr().len()
        },
        _ => false,
    }
}

#[verifier::rlimit(100)]
#[verifier::spinoff_prover]
proof fn lemma_decomp_authorize(s: Seq<u8>, id: u64, wn: Seq<u8>, wp: Seq<u8>)
    requires
        s == enc_msg(MessageModel::Authorize(id, wn, wp)),
        valid_model(MessageModel::Authorize(id, wn, wp)),
    ensures
        starts_with(s, l_authorize()),
        decomposed_auth(s, MessageModel::Authorize(id, wn, wp)),
{
    let c0 = l_authorize();
    let c1 = dec_u64(id);
    let c2 = l_params();
    let c3 = wn;
    let c4 = l_strcomma();
    let c5 = wp;
    let c6 = l_closestr();
    assert(s.skip(0) =~= s);
    assert(s.skip(0) == c0 + (c1 + (c2 + (c3 + (c4 + (c5 + c6)))))) by {
        assert(c0 + c1 + c2 + c3 + c4 + c5 + c6 =~= c0 + (c1 + (c2 + (c3 + (c4 + (c5 + c6))))));
    }
    lemma_skip_split(s, 0, c0, c1 + (c2 + (c3 + (c4 + (c5 + c6)))));
    let p1 = c0.len() as int;
    lemma_skip_split(s, p1, c1, c2 + (c3 + (c4 + (c5 + c6))));
    let p2 = p1 + c1.len();
    lemma_skip_split(s, p2, c2, c3 + (c4 + (c5 + c6)));
    let p3 = p2 + c2.len();
    lemma_skip_split(s, p3, c3, c4 + (c5 + c6));
    let p4 = p3 + c3.len();
    lemma_skip_split(s, p4, c4, c5 + c6);
    let p5 = p4 + c4.len();
    lemma_skip_split(s, p5, c5, c6);
    let p6 = p5 + c5.len();
    assert(s.skip(p6) == c6 + Seq::<u8>::empty()) by {
        assert(c6 + Seq::<u8>::empty() =~= c6);
    }
    lemma_skip_split(s, p6, c6, Seq::<u8>::empty());
    assert(s[p2] == 44) by {
        assert(s.subrange(p2, p2 + c2.len())[0] == s[p2]);
    }
    assert(s[p3 + c3.len()] == 34) by {
        assert(s.subrange(p4, p4 + c4.len())[0] == s[p4]);
    }
    assert(s[p5 + c5.len()] == 34) by {
        assert(s.subrange(p6, p6 + c6.len())[0] == s[p6]);
    }
}

/// Decodes a frame that begins like an `Authorize`.
#[verifier::rlimit(100)]
fn decode_authorize(input: &Vec<u8>) -> (r: Option<StratumMessage>)
    requires starts_with(input@, l_authorize()),
    ensures
        r matches Some(m) ==> valid_model(m@) && input@ == enc_msg(m@) && m@ is Authorize,
        forall|ms: MessageModel|
            valid_model(ms) && ms is Authorize && input@ == enc_msg(ms) ==> r is Some
                && r.unwrap()@ == ms,
{
    proof {
        assert forall|ms: MessageModel|
            valid_model(ms) && ms is Authorize && input@ == enc_msg(ms) implies decomposed_auth(
            input@,
            ms,
        ) by {
            match ms {
                MessageModel::Authorize(id, wn, wp) => {
                    lemma_decomp_authorize(input@, id, wn, wp);
                },
                _ => {},
            }
        }
    }
    let lv = l_authorize_vec();
    let p1 = lv.len();
    let pr = l_params_vec();
    let sc = l_strcomma_vec();
    let cs = l_closestr_vec();
    let (id, j1) = match parse_u64_at(input, p1) {
        Some(p) => p,
        None => {
            return None;
        },
    };
    let j2 = match lit_at(input, j1, &pr) {
        Some(j) => j,
        None => {
            return None;
        },
    };
    let (wn, j3) = match parse_str_at(input, j2) {
        Some(p) => p,
        None => {
            return None;
        },
    };
    let j4 = match lit_at(input, j3, &sc) {
        Some(j) => j,
        None => {
            return None;
        },
    };
    let (wp, j5) = match parse_str_at(input, j4) {
        Some(p) => p,
        None => {
            return None;
        },
    };
    let j6 = match lit_at(input, j5, &cs) {
        Some(j) => j,
        None => {
            return None;
        },
    };
    if j6 != input.len() {
        return None;
    }
    proof {
        assert(input@ =~= l_authorize() + dec_u64(id) + l_params() + wn@ + l_strcomma() + wp@
            + l_closestr());
    }
    Some(StratumMessage::Authorize(id, wn, wp))
}

/// The parts and positions of a `Submit` wire form.
pub open spec fn decomposed_smt(s: Seq<u8>, ms: MessageModel) -> bool {
    match ms {
        MessageModel::Submit(id, wn, jid, ctr) => {
            let p1 = l_submit().len() as int;
            let p2 = p1 + dec_u64(id).len();
            let p3 = p2 + l_params().len();
            let p4 = p3 + wn.len();
            let p5 = p4 + l_strcomma().len();
            let p6 = p5 + jid.len();
            let p7 = p6 + l_strcomma().len();
            let p8 = p7 + ctr.len();
            &&& has_dec_at(s, p1, id)
            &&& lit_present(s, p2, l_params())
            &&& has_str_at(s, p3, wn)
            &&& lit_present(s, p4, l_strcomma())
            &&& has_str_at(s, p5, jid)
            &&& lit_present(s, p6, l_strcomma())
            &&& has_str_at(s, p7, ctr)
            &&& lit_present(s, p8, l_closestr())
            &&& s.len() == p8 + l_closestr().len()
        },
        _ => false,
    }
}

#[verifier::rlimit(100)]
#[verifier::spinoff_prover]
proof fn lemma_decomp_submit(s: Seq<u8>, id: u64, wn: Seq<u8>, jid: Seq<u8>, ctr: Seq<u8>)
    requires
        s == enc_msg(MessageModel::Submit(id, wn, jid, ctr)),
        valid_model(MessageModel::Submit(id, wn, jid, ctr)),
    ensures
        starts_with(s, l_submit()),
        decomposed_smt(s, MessageModel::Submit(id, wn, jid, ctr)),
{
    let c0 = l_submit();
    let c1 = dec_u64(id);
    let c2 = l_params();
    let c3 = wn;
    let c4 = l_strcomma();
    let c5 = jid;
    let c6 = l_strcomma();
    let c7 = ctr;
    let c8 = l_closestr();
    assert(s.skip(0) =~= s);
    assert(s.skip(0) == c0 + (c1 + (c2 + (c3 + (c4 + (c5 + (c6 + (c7 + c8)))))))) by {
        assert(c0 + c1 + c2 + c3 + c4 + c5 + c6 + c7 + c8 =~= c0 + (c1 + (c2 + (c3 + (c4 + (c5 + (
        c6 + (c7 + c8))))))));
    }
    lemma_skip_split(s, 0, c0, c1 + (c2 + (c3 + (c4 + (c5 + (c6 + (c7 + c8)))))));
    let p1 = c0.len() as int;
    lemma_skip_split(s, p1, c1, c2 + (c3 + (c4 + (c5 + (c6 + (c7 + c8))))));
    let p2 = p1 + c1.len();
    lemma_skip_split(s, p2, c2, c3 + (c4 + (c5 + (c6 + (c7 + c8)))));
    let p3 = p2 + c2.len();
    lemma_skip_split(s, p3, c3, c4 + (c5 + (c6 + (c7 + c8))));
    let p4 = p3 + c3.len();
    lemma_skip_split(s, p4, c4, c5 + (c6 + (c7 + c8)));
    let p5 = p4 + c4.len();
    lemma_skip_split(s, p5, c5, c6 + (c7 + c8));
    let p6 = p5 + c5.len();
    lemma_skip_split(s, p6, c6, c7 + c8);
    let p7 = p6 + c6.len();
    lemma_skip_split(s, p7, c7, c8);
    let p8 = p7 + c7.len();
    assert(s.skip(p8) == c8 + Seq::<u8>::empty()) by {
        assert(c8 + Seq::<u8>::empty() =~= c8);
    }
    lemma_skip_split(s, p8, c8, Seq::<u8>::empty());
    assert(s[p2] == 44) by {
        assert(s.subrange(p2, p2 + c2.len())[0] == s[p2]);
    }
    assert(s[p3 + c3.len()] == 34) by {
        assert(s.subrange(p4, p4 + c4.len())[0] == s[p4]);
    }
    assert(s[p5 + c5.len()] == 34) by {
        assert(s.subrange(p6, p6 + c6.len())[0] == s[p6]);
    }
    assert(s[p7 + c7.len()] == 34) by {
        assert(s.subrange(p8, p8 + c8.len())[0] == s[p8]);
    }
}

/// Decodes a frame that begins like a `Submit`.
#[verifier::rlimit(100)]
fn decode_submit(input: &Vec<u8>) -> (r: Option<StratumMessage>)
    requires starts_with(input@, l_submit()),
    ensures
        r matches Some(m) ==> valid_model(m@) && input@ == enc_msg(m@) && m@ is Submit,
        forall|ms: MessageModel|
            valid_model(ms) && ms is Submit && input@ == enc_msg(ms) ==> r is Some && r.unwrap()@
                == ms,
{
    proof {
        assert forall|ms: MessageModel|
            valid_model(ms) && ms is Submit && input@ == enc_msg(ms) implies decomposed_smt(
            input@,
            ms,
        ) by {
            match ms {
                MessageModel::Submit(id, wn, jid, ctr) => {
                    lemma_decomp_submit(input@, id, wn, jid, ctr);
                },
                _ => {},
            }
        }
    }
    let lv = l_submit_vec();
    let p1 = lv.len();
    let pr = l_params_vec();
    let sc = l_strcomma_vec();
    let cs = l_closestr_vec();
    let (id, j1) = match parse_u64_at(input, p1) {
        Some(p) => p,
        None => {
            return None;
        },
    };
    let j2 = match lit_at(input, j1, &pr) {
        Some(j) => j,
        None => {
            return None;
        },
    };
    let (wn, j3) = match parse_str_at(input, j2) {
        Some(p) => p,
        None => {
            return None;
        },
    };
    let j4 = match lit_at(input, j3, &sc) {
        Some(j) => j,
        None => {
            return None;
        },
    };
    let (jid, j5) = match parse_str_at(input, j4) {
        Some(p) => p,
        None => {
            return None;
        },
    };
    let j6 = match lit_at(input, j5, &sc) {
        Some(j) => j,
        None => {
            return None;
        },
    };
    let (ctr, j7) = match parse_str_at(input, j6) {
        Some(p) => p,
        None => {
            return None;
        },
    };
    let j8 = match lit_at(input, j7, &cs) {
        Some(j) => j,
        None => {
            return None;
        },
    };
    if j8 != input.len() {
        return None;
    }
    proof {
        assert(input@ =~= l_submit() + dec_u64(id) + l_params() + wn@ + l_strcomma() + jid@
            + l_strcomma() + ctr@ + l_closestr());
    }
    Some(StratumMessage::Submit(id, wn, jid, ctr))
}

/// The parts and positions of a `Notify` wire form.
pub open spec fn decomposed_not(s: Seq<u8>, ms: MessageModel) -> bool {
    match ms {
        MessageModel::Notify(jid, eh, ad, clean) => {
            let p1 = l_notify().len() as int;
            let p2 = p1 + jid.len();
            let p3 = p2 + l_strcomma().len();
            let p4 = p3 + eh.len();
            let p5 = p4 + l_strcomma2().len();
            let p6 = p5 + jopt(ad).len();
            let p7 = p6 + l_comma().len();
            let p8 = p7 + jbool(clean).len();
            &&& has_str_at(s, p1, jid)
            &&& lit_present(s, p2, l_strcomma())
            &&& has_str_at(s, p3, eh)
            &&& lit_present(s, p4, l_strcomma2())
            &&& has_jopt_at(s, p5, ad)
            &&& lit_present(s, p6, l_comma())
            &&& lit_present(s, p7, jbool(clean))
            &&& lit_present(s, p8, l_close())
            &&& s.len() == p8 + l_close().len()
        },
        _ => false,
    }
}

#[verifier::rlimit(100)]
#[verifier::spinoff_prover]
proof fn lemma_decomp_notify(s: Seq<u8>, jid: Seq<u8>, eh: Seq<u8>, ad: Option<Seq<u8>>, clean: bool)
    requires
        s == enc_msg(MessageModel::Notify(jid, eh, ad, clean)),
        valid_model(MessageModel::Notify(jid, eh, ad, clean)),
    ensures
        starts_with(s, l_notify()),
        decomposed_not(s, MessageModel::Notify(jid, eh, ad, clean)),
{
    let c0 = l_notify();
    let c1 = jid;
    let c2 = l_strcomma();
    let c3 = eh;
    let c4 = l_strcomma2();
    let c5 = jopt(ad);
    let c6 = l_comma();
    let c7 = jbool(clean);
    let c8 = l_close();
    assert(s.skip(0) =~= s);
    assert(s.skip(0) == c0 + (c1 + (c2 + (c3 + (c4 + (c5 + (c6 + (c7 + c8)))))))) by {
        assert(c0 + c1 + c2 + c3 + c4 + c5 + c6 + c7 + c8 =~= c0 + (c1 + (c2 + (c3 + (c4 + (c5 + (
        c6 + (c7 + c8))))))));
    }
    lemma_skip_split(s, 0, c0, c1 + (c2 + (c3 + (c4 + (c5 + (c6 + (c7 + c8)))))));
    let p1 = c0.len() as int;
    lemma_skip_split(s, p1, c1, c2 + (c3 + (c4 + (c5 + (c6 + (c7 + c8))))));
    let p2 = p1 + c1.len();
    lemma_skip_split(s, p2, c2, c3 + (c4 + (c5 + (c6 + (c7 + c8)))));
    let p3 = p2 + c2.len();
    lemma_skip_split(s, p3, c3, c4 + (c5 + (c6 + (c7 + c8))));
    let p4 = p3 + c3.len();
    lemma_skip_split(s, p4, c4, c5 + (c6 + (c7 + c8)));
    let p5 = p4 + c4.len();
    lemma_skip_split(s, p5, c5, c6 + (c7 + c8));
    let p6 = p5 + c5.len();
    lemma_skip_split(s, p6, c6, c7 + c8);
    let p7 = p6 + c6.len();
    lemma_skip_split(s, p7, c7, c8);
    let p8 = p7 + c7.len();
    assert(s.skip(p8) == c8 + Seq::<u8>::empty()) by {
        assert(c8 + Seq::<u8>::empty() =~= c8);
    }
    lemma_skip_split(s, p8, c8, Seq::<u8>::empty());
    assert(s[p1 + c1.len()] == 34) by {
        assert(s.subrange(p2, p2 + c2.len())[0] == s[p2]);
    }
    assert(s[p3 + c3.len()] == 34) by {
        assert(s.subrange(p4, p4 + c4.len())[0] == s[p4]);
    }
}

/// Decodes a frame that begins like a `Notify`.
#[verifier::rlimit(100)]
fn decode_notify(input: &Vec<u8>) -> (r: Option<StratumMessage>)
    requires starts_with(input@, l_notify()),
    ensures
        r matches Some(m) ==> valid_model(m@) && input@ == enc_msg(m@) && m@ is Notify,
        forall|ms: MessageModel|
            valid_model(ms) && ms is Notify && input@ == enc_msg(ms) ==> r is Some && r.unwrap()@
                == ms,
{
    proof {
        assert forall|ms: MessageModel|
            valid_model(ms) && ms is Notify && input@ == enc_msg(ms) implies decomposed_not(
            input@,
            ms,
        ) by {
            match ms {
                MessageModel::Notify(jid, eh, ad, clean) => {
                    lemma_decomp_notify(input@, jid, eh, ad, clean);
                },
                _ => {},
            }
        }
    }
    let lv = l_notify_vec();
    let p1 = lv.len();
    let sc = l_strcomma_vec();
    let sc2 = l_strcomma2_vec();
    let cm = l_comma_vec();
    let cl = l_close_vec();
    let (jid, j1) = match parse_str_at(input, p1) {
        Some(p) => p,
        None => {
            return None;
        },
    };
    let j2 = match lit_at(input, j1, &sc) {
        Some(j) => j,
        None => {
            return None;
        },
    };
    let (eh, j3) = match parse_str_at(input, j2) {
        Some(p) => p,
        None => {
            return None;
        },
    };
    let j4 = match lit_at(input, j3, &sc2) {
        Some(j) => j,
        None => {
            return None;
        },
    };
    let (ad, j5) = match parse_jopt_at(input, j4) {
        Some(p) => p,
        None => {
            return None;
        },
    };
    let j6 = match lit_at(input, j5, &cm) {
        Some(j) => j,
        None => {
            return None;
        },
    };
    let (clean, j7) = match parse_jbool_at(input, j6) {
        Some(p) => p,
        None => {
            return None;
        },
    };
    let j8 = match lit_at(input, j7, &cl) {
        Some(j) => j,
        None => {
            return None;
        },
    };
    if j8 != input.len() {
        return None;
    }
    proof {
        assert(input@ =~= l_notify() + jid@ + l_strcomma() + eh@ + l_strcomma2() + jopt(
            match ad {
                Some(ref v) => Some(v@),
                None => None,
            },
        ) + l_comma() + jbool(clean) + l_close());
    }
    Some(StratumMessage::Notify(jid, eh, ad, clean))
}


/// The parts and positions of a `Response` wire form.
pub open spec fn decomposed_resp(s: Seq<u8>, ms: MessageModel) -> bool {
    match ms {
        MessageModel::Response(id, res, err) => {
            let p1 = l_response().len() as int;
            let p2 = p1 + dec_u64(id).len();
            match (res, err) {
                (Some(p), None) => {
                    let p3 = p2 + l_result().len();
                    &&& has_dec_at(s, p1, id)
                    &&& lit_present(s, p2, l_result())
                    &&& match p {
                        ResponseModel::Bool(b) => {
                            let p4 = p3 + jbool(b).len();
                            &&& lit_present(s, p3, jbool(b))
                            &&& lit_present(s, p4, l_rbrace())
                            &&& s.len() == p4 + l_rbrace().len()
                        },
                        ResponseModel::Subscribe(sid, np) => {
                            let p4 = p3 + l_resarr().len();
                            let p5 = p4 + sid.len();
                            let p6 = p5 + l_strcomma2().len();
                            let p7 = p6 + jopt(np).len();
                            let p8 = p7 + l_rbracket().len();
                            &&& lit_present(s, p3, l_resarr())
                            &&& has_str_at(s, p4, sid)
                            &&& lit_present(s, p5, l_strcomma2())
                            &&& has_jopt_at(s, p6, np)
                            &&& lit_present(s, p7, l_rbracket())
                            &&& lit_present(s, p8, l_rbrace())
                            &&& s.len() == p8 + l_rbrace().len()
                        },
                    }
                },
                (None, Some(e)) => {
                    let p3 = p2 + l_error().len();
                    let p4 = p3 + dec_u64((-e.code) as u64).len();
                    let p5 = p4 + l_message().len();
                    let p6 = p5 + e.message.len();
                    &&& has_dec_at(s, p1, id)
                    &&& lit_present(s, p2, l_error())
                    &&& has_dec_at(s, p3, (-e.code) as u64)
                    &&& lit_present(s, p4, l_message())
                    &&& has_str_at(s, p5, e.message)
                    &&& lit_present(s, p6, l_endobj())
                    &&& s.len() == p6 + l_endobj().len()
                },
                _ => false,
            }
        },
        _ => false,
    }
}

#[verifier::rlimit(100)]
#[verifier::spinoff_prover]
proof fn lemma_decomp_response_ok(s: Seq<u8>, id: u64, p: ResponseModel)
    requires
        s == enc_msg(MessageModel::Response(id, Some(p), None)),
        valid_model(MessageModel::Response(id, Some(p), None)),
    ensures
        starts_with(s, l_response()),
        decomposed_resp(s, MessageModel::Response(id, Some(p), None)),
{
    let c0 = l_response();
    let c1 = dec_u64(id);
    let p1 = c0.len() as int;

            let c2 = l_result();
            let c3 = enc_res(p);
            let c4 = l_rbrace();
            assert(s.skip(0) =~= s);
            assert(s.skip(0) == c0 + (c1 + (c2 + (c3 + c4)))) by {
                assert(c0 + c1 + c2 + c3 + c4 =~= c0 + (c1 + (c2 + (c3 + c4))));
            }
            lemma_skip_split(s, 0, c0, c1 + (c2 + (c3 + c4)));
            lemma_skip_split(s, p1, c1, c2 + (c3 + c4));
            let p2 = p1 + c1.len();
            lemma_skip_split(s, p2, c2, c3 + c4);
            let p3 = p2 + c2.len();
            lemma_skip_split(s, p3, c3, c4);
            let p4 = p3 + c3.len();
            assert(s.skip(p4) == c4 + Seq::<u8>::empty()) by {
                assert(c4 + Seq::<u8>::empty() =~= c4);
            }
            lemma_skip_split(s, p4, c4, Seq::<u8>::empty());
            assert(s[p2] == 44) by {
                assert(s.subrange(p2, p2 + c2.len())[0] == s[p2]);
            }
            match p {
                ResponseModel::Bool(b) => {
                    assert(lit_present(s, p3, jbool(b)));
                },
                ResponseModel::Subscribe(sid, np) => {
                    let d0 = l_resarr();
                    let d1 = sid;
                    let d2 = l_strcomma2();
                    let d3 = jopt(np);
                    let d4 = l_rbracket();
                    assert(s.skip(p3) == d0 + (d1 + (d2 + (d3 + (d4 + c4))))) by {
                        assert(c3 + c4 =~= d0 + (d1 + (d2 + (d3 + (d4 + c4)))));
                    }
                    lemma_skip_split(s, p3, d0, d1 + (d2 + (d3 + (d4 + c4))));
                    let q4 = p3 + d0.len();
                    lemma_skip_split(s, q4, d1, d2 + (d3 + (d4 + c4)));
                    let q5 = q4 + d1.len();
                    lemma_skip_split(s, q5, d2, d3 + (d4 + c4));
                    let q6 = q5 + d2.len();
                    lemma_skip_split(s, q6, d3, d4 + c4);
                    let q7 = q6 + d3.len();
                    lemma_skip_split(s, q7, d4, c4);
                    assert(s[q4 + d1.len()] == 34) by {
                        assert(s.subrange(q5, q5 + d2.len())[0] == s[q5]);
                    }
                },
            }
}

#[verifier::rlimit(100)]
#[verifier::spinoff_prover]
proof fn lemma_decomp_response_err(s: Seq<u8>, id: u64, e: ErrorModel)
    requires
        s == enc_msg(MessageModel::Response(id, None, Some(e))),
        valid_model(MessageModel::Response(id, None, Some(e))),
    ensures
        starts_with(s, l_response()),
        decomposed_resp(s, MessageModel::Response(id, None, Some(e))),
{
    let c0 = l_response();
    let c1 = dec_u64(id);
    let p1 = c0.len() as int;

            let c2 = l_error();
            let c3 = dec_u64((-e.code) as u64);
            let c4 = l_message();
            let c5 = e.message;
            let c6 = l_endobj();
            assert(s.skip(0) =~= s);
            assert(s.skip(0) == c0 + (c1 + (c2 + (c3 + (c4 + (c5 + c6)))))) by {
                assert(c0 + c1 + c2 + c3 + c4 + c5 + c6 =~= c0 + (c1 + (c2 + (c3 + (c4 + (c5
                    + c6))))));
            }
            lemma_skip_split(s, 0, c0, c1 + (c2 + (c3 + (c4 + (c5 + c6)))));
            lemma_skip_split(s, p1, c1, c2 + (c3 + (c4 + (c5 + c6))));
            let p2 = p1 + c1.len();
            lemma_skip_split(s, p2, c2, c3 + (c4 + (c5 + c6)));
            let p3 = p2 + c2.len();
            lemma_skip_split(s, p3, c3, c4 + (c5 + c6));
            let p4 = p3 + c3.len();
            lemma_skip_split(s, p4, c4, c5 + c6);
            let p5 = p4 + c4.len();
            lemma_skip_split(s, p5, c5, c6);
            let p6 = p5 + c5.len();
            assert(s.skip(p6) == c6 + Seq::<u8>::empty()) by {
                assert(c6 + Seq::<u8>::empty() =~= c6);
            }
            lemma_skip_split(s, p6, c6, Seq::<u8>::empty());
            assert(s[p2] == 44) by {
                assert(s.subrange(p2, p2 + c2.len())[0] == s[p2]);
            }
            assert(s[p4] == 44) by {
                assert(s.subrange(p4, p4 + c4.len())[0] == s[p4]);
            }
            assert(s[p5 + c5.len()] == 34) by {
                assert(s.subrange(p6, p6 + c6.len())[0] == s[p6]);
            }
}

proof fn lemma_decomp_response(
    s: Seq<u8>,
    id: u64,
    res: Option<ResponseModel>,
    err: Option<ErrorModel>,
)
    requires
        s == enc_msg(MessageModel::Response(id, res, err)),
        valid_model(MessageModel::Response(id, res, err)),
    ensures
        starts_with(s, l_response()),
        decomposed_resp(s, MessageModel::Response(id, res, err)),
{
    match (res, err) {
        (Some(p), None) => {
            lemma_decomp_response_ok(s, id, p);
        },
        (None, Some(e)) => {
            lemma_decomp_response_err(s, id, e);
        },
        _ => {},
    }
}

/// Two canonical decimals at one position agree.
proof fn lemma_dec_at_unique(s: Seq<u8>, pos: int, a: u64, b: u64)
    requires
        has_dec_at(s, pos, a),
        has_dec_at(s, pos, b),
    ensures a == b,
{
    lemma_val_dec(a);
    lemma_val_dec(b);
    let da = dec_u64(a);
    let db = dec_u64(b);
    assert(da.len() == db.len()) by {
        if da.len() < db.len() {
            assert(s.subrange(pos, pos + db.len())[da.len() as int] == s[pos + da.len()]);
            assert(is_digit(db[da.len() as int]));
        } else if db.len() < da.len() {
            assert(s.subrange(pos, pos + da.len())[db.len() as int] == s[pos + db.len()]);
            assert(is_digit(da[db.len() as int]));
        }
    }
    assert(da == db);
    assert(val(da) == val(db));
}

/// Decodes a result-carrying response after the id and the result key.
#[verifier::rlimit(100)]
#[verifier::spinoff_prover]
fn decode_resp_ok(input: &Vec<u8>, id: u64, j2: usize) -> (r: Option<StratumMessage>)
    requires
        starts_with(input@, l_response()),
        has_dec_at(input@, l_response().len() as int, id),
        j2 == l_response().len() + dec_u64(id).len() + l_result().len(),
        j2 <= input@.len(),
        lit_present(
            input@,
            l_response().len() as int + dec_u64(id).len(),
            l_result(),
        ),
    ensures
        r matches Some(m) ==> valid_model(m@) && input@ == enc_msg(m@) && m@ is Response,
        forall|ms: MessageModel|
            valid_model(ms) && ms is Response && input@ == enc_msg(ms) ==> r is Some
                && r.unwrap()@ == ms,
{
    proof {
        assert forall|ms: MessageModel|
            valid_model(ms) && ms is Response && input@ == enc_msg(ms) implies decomposed_resp(
            input@,
            ms,
        ) && (ms matches MessageModel::Response(id2, res2, err2) && id2 == id && res2 is Some)
            by {
            match ms {
                MessageModel::Response(id2, res2, err2) => {
                    lemma_decomp_response(input@, id2, res2, err2);
                    lemma_dec_at_unique(input@, l_response().len() as int, id, id2);
                    match (res2, err2) {
                        (None, Some(e)) => {
                            // an error response would carry the error key here
                            let p2 = l_response().len() as int + dec_u64(id2).len();
                            assert(input@.subrange(p2, p2 + l_error().len())[2]
                                == input@[p2 + 2]);
                            assert(input@.subrange(p2, p2 + l_result().len())[2]
                                == input@[p2 + 2]);
                        },
                        _ => {},
                    }
                },
                _ => {},
            }
        }
    }
    let arrv = l_resarr_vec();
    match lit_at(input, j2, &arrv) {
        Some(j3) => {
            let sc2 = l_strcomma2_vec();
            let rbk = l_rbracket_vec();
            let rbr = l_rbrace_vec();
            let (sid, j4) = match parse_str_at(input, j3) {
                Some(p) => p,
                None => {
                    return None;
                },
            };
            let j5 = match lit_at(input, j4, &sc2) {
                Some(j) => j,
                None => {
                    return None;
                },
            };
            let (np, j6) = match parse_jopt_at(input, j5) {
                Some(p) => p,
                None => {
                    return None;
                },
            };
            let j7 = match lit_at(input, j6, &rbk) {
                Some(j) => j,
                None => {
                    return None;
                },
            };
            let j8 = match lit_at(input, j7, &rbr) {
                Some(j) => j,
                None => {
                    return None;
                },
            };
            if j8 != input.len() {
                return None;
            }
            proof {
                assert(input@ =~= l_response() + dec_u64(id) + l_result() + (l_resarr() + sid@
                    + l_strcomma2() + jopt(
                    match np {
                        Some(ref v) => Some(v@),
                        None => None,
                    },
                ) + l_rbracket()) + l_rbrace());
            }
            Some(StratumMessage::Response(id, Some(ResponseParams::Subscribe(sid, np)), None))
        },
        None => {
            let rbr = l_rbrace_vec();
            let (b, j3) = match parse_jbool_at(input, j2) {
                Some(p) => p,
                None => {
                    return None;
                },
            };
            let j4 = match lit_at(input, j3, &rbr) {
                Some(j) => j,
                None => {
                    return None;
                },
            };
            if j4 != input.len() {
                return None;
            }
            proof {
                assert(input@ =~= l_response() + dec_u64(id) + l_result() + jbool(b) + l_rbrace());
                assert forall|ms: MessageModel|
                    valid_model(ms) && ms is Response && input@ == enc_msg(ms) implies ms
                    == StratumMessage::Response(
                    id,
                    Some(ResponseParams::Bool(b)),
                    None::<ErrorObject>,
                )@ by {
                    match ms {
                        MessageModel::Response(id2, res2, err2) => {
                            match (res2, err2) {
                                (Some(ResponseModel::Subscribe(sid2, np2)), None) => {
                                    assert(input@[j2 as int] == 91) by {
                                        let pp = l_response().len() as int + dec_u64(id2).len()
                                            + l_result().len();
                                        assert(input@.subrange(pp, pp + l_resarr().len())[0]
                                            == input@[pp]);
                                    }
                                    assert(input@[j2 as int] == jbool(b)[0]) by {
                                        assert(input@.subrange(j2 as int, j2 + jbool(b).len())[0]
                                            == input@[j2 as int]);
                                    }
                                },
                                _ => {},
                            }
                        },
                        _ => {},
                    }
                }
            }
            Some(StratumMessage::Response(id, Some(ResponseParams::Bool(b)), None))
        },
    }
}

/// Decodes an error-carrying response after the id and the error key.
#[verifier::rlimit(100)]
#[verifier::spinoff_prover]
fn decode_resp_err(input: &Vec<u8>, id: u64, j2: usize) -> (r: Option<StratumMessage>)
    requires
        starts_with(input@, l_response()),
        has_dec_at(input@, l_response().len() as int, id),
        j2 == l_response().len() + dec_u64(id).len() + l_error().len(),
        j2 <= input@.len(),
        lit_present(input@, l_response().len() as int + dec_u64(id).len(), l_error()),
        !lit_present(input@, l_response().len() as int + dec_u64(id).len(), l_result()),
    ensures
        r matches Some(m) ==> valid_model(m@) && input@ == enc_msg(m@) && m@ is Response,
        forall|ms: MessageModel|
            valid_model(ms) && ms is Response && input@ == enc_msg(ms) ==> r is Some
                && r.unwrap()@ == ms,
{
    proof {
        assert forall|ms: MessageModel|
            valid_model(ms) && ms is Response && input@ == enc_msg(ms) implies decomposed_resp(
            input@,
            ms,
        ) && (ms matches MessageModel::Response(id2, res2, err2) && id2 == id && err2 is Some)
            by {
            match ms {
                MessageModel::Response(id2, res2, err2) => {
                    lemma_decomp_response(input@, id2, res2, err2);
                    lemma_dec_at_unique(input@, l_response().len() as int, id, id2);
                },
                _ => {},
            }
        }
    }
    let msgv = l_message_vec();
    let endv = l_endobj_vec();
    let (mag, j3) = match parse_u64_at(input, j2) {
        Some(p) => p,
        None => {
            return None;
        },
    };
    if mag < 1 || mag > 32768 {
        return None;
    }
    let j4 = match lit_at(input, j3, &msgv) {
        Some(j) => j,
        None => {
            return None;
        },
    };
    let (msg, j5) = match parse_str_at(input, j4) {
        Some(p) => p,
        None => {
            return None;
        },
    };
    let j6 = match lit_at(input, j5, &endv) {
        Some(j) => j,
        None => {
            return None;
        },
    };
    if j6 != input.len() {
        return None;
    }
    let code: i64 = -(mag as i64);
    proof {
        assert(input@ =~= l_response() + dec_u64(id) + l_error() + dec_u64(mag) + l_message()
            + msg@ + l_endobj());
        assert((-code) as u64 == mag);
    }
    Some(StratumMessage::Response(id, None, Some(ErrorObject { code, message: msg })))
}

/// Decodes a frame that begins like a `Response`.
#[verifier::rlimit(100)]
#[verifier::spinoff_prover]
fn decode_response(input: &Vec<u8>) -> (r: Option<StratumMessage>)
    requires starts_with(input@, l_response()),
    ensures
        r matches Some(m) ==> valid_model(m@) && input@ == enc_msg(m@) && m@ is Response,
        forall|ms: MessageModel|
            valid_model(ms) && ms is Response && input@ == enc_msg(ms) ==> r is Some
                && r.unwrap()@ == ms,
{
    proof {
        assert forall|ms: MessageModel|
            valid_model(ms) && ms is Response && input@ == enc_msg(ms) implies decomposed_resp(
            input@,
            ms,
        ) by {
            match ms {
                MessageModel::Response(id2, res2, err2) => {
                    lemma_decomp_response(input@, id2, res2, err2);
                },
                _ => {},
            }
        }
    }
    let lv = l_response_vec();
    let p1 = lv.len();
    let (id, j1) = match parse_u64_at(input, p1) {
        Some(p) => p,
        None => {
            return None;
        },
    };
    let resv = l_result_vec();
    match lit_at(input, j1, &resv) {
        Some(j2) => decode_resp_ok(input, id, j2),
        None => {
            let errv = l_error_vec();
            match lit_at(input, j1, &errv) {
                Some(j2) => decode_resp_err(input, id, j2),
                None => {
                    proof {
                        assert forall|ms: MessageModel|
                            !(valid_model(ms) && ms is Response && input@ == enc_msg(ms)) by {
                            if valid_model(ms) && ms is Response && input@ == enc_msg(ms) {
                                match ms {
                                    MessageModel::Response(id2, res2, err2) => {
                                        lemma_dec_at_unique(
                                            input@,
                                            l_response().len() as int,
                                            id,
                                            id2,
                                        );
                                    },
                                    _ => {},
                                }
                            }
                        }
                    }
                    None
                },
            }
        },
    }
}

/// Decodes one frame. `decode` accepts exactly the wire forms that
/// `encode` produces: it returns the message whose encoding is the input,
/// and fails on every other byte string.
#[verifier::rlimit(100)]
#[verifier::spinoff_prover]
pub fn decode(input: &Vec<u8>) -> (r: Option<StratumMessage>)
    ensures
        r matches Some(m) ==> valid_model(m@) && input@ == enc_msg(m@),
        forall|ms: MessageModel|
            valid_model(ms) && input@ == enc_msg(ms) ==> r is Some && r.unwrap()@ == ms,
{
    proof {
        assert forall|ms: MessageModel| valid_model(ms) && input@ == enc_msg(ms) implies head_of(
            input@,
            ms,
        ) by {
            lemma_enc_head(input@, ms);
        }
    }
    let subv = l_subscribe_vec();
    let authv = l_authorize_vec();
    let smtv = l_submit_vec();
    let stv = l_set_target_vec();
    let notv = l_notify_vec();
    let respv = l_response_vec();
    if lit_at(input, 0, &subv).is_some() {
        proof {
            assert(starts_with(input@, l_subscribe())) by {
                assert(input@.subrange(0, l_subscribe().len() as int) == subv@);
            }
        }
        decode_subscribe(input)
    } else if lit_at(input, 0, &authv).is_some() {
        proof {
            assert(starts_with(input@, l_authorize())) by {
                assert(input@.subrange(0, l_authorize().len() as int) == authv@);
            }
        }
        decode_authorize(input)
    } else if lit_at(input, 0, &smtv).is_some() {
        proof {
            assert(starts_with(input@, l_submit())) by {
                assert(input@.subrange(0, l_submit().len() as int) == smtv@);
            }
        }
        decode_submit(input)
    } else if lit_at(input, 0, &stv).is_some() {
        proof {
            assert(starts_with(input@, l_set_target())) by {
                assert(input@.subrange(0, l_set_target().len() as int) == stv@);
            }
        }
        decode_set_target(input)
    } else if lit_at(input, 0, &notv).is_some() {
        proof {
            assert(starts_with(input@, l_notify())) by {
                assert(input@.subrange(0, l_notify().len() as int) == notv@);
            }
        }
        decode_notify(input)
    } else if lit_at(input, 0, &respv).is_some() {
        proof {
            assert(starts_with(input@, l_response())) by {
                assert(input@.subrange(0, l_response().len() as int) == respv@);
            }
        }
        decode_response(input)
    } else {
        proof {
            assert forall|ms: MessageModel|
                !(valid_model(ms) && input@ == enc_msg(ms)) by {
                if valid_model(ms) && input@ == enc_msg(ms) {
                    match ms {
                        MessageModel::Subscribe(..) => {
                            assert(lit_present(input@, 0, l_subscribe()));
                        },
                        MessageModel::Authorize(..) => {
                            assert(lit_present(input@, 0, l_authorize()));
                        },
                        MessageModel::Submit(..) => {
                            assert(lit_present(input@, 0, l_submit()));
                        },
                        MessageModel::SetTarget(..) => {
                            assert(lit_present(input@, 0, l_set_target()));
                        },
                        MessageModel::Notify(..) => {
                            assert(lit_present(input@, 0, l_notify()));
                        },
                        MessageModel::Response(..) => {
                            assert(lit_present(input@, 0, l_response()));
                        },
                    }
                }
            }
        }
        None
    }
}

/// The variant-discriminating head literal of an encoding.
pub open spec fn head_of(s: Seq<u8>, ms: MessageModel) -> bool {
    match ms {
        MessageModel::Subscribe(..) => starts_with(s, l_subscribe()),
        MessageModel::Authorize(..) => starts_with(s, l_authorize()),
        MessageModel::Submit(..) => starts_with(s, l_submit()),
        MessageModel::SetTarget(..) => starts_with(s, l_set_target()),
        MessageModel::Notify(..) => starts_with(s, l_notify()),
        MessageModel::Response(..) => starts_with(s, l_response()),
    }
}

/// Every valid encoding begins with its variant's head literal, and the
/// heads of different variants exclude one another.
proof fn lemma_enc_head(s: Seq<u8>, ms: MessageModel)
    requires
        valid_model(ms),
        s == enc_msg(ms),
    ensures head_of(s, ms),
{
    match ms {
        MessageModel::Subscribe(id, ua, pv, sid) => {
            lemma_decomp_subscribe(s, id, ua, pv, sid);
        },
        MessageModel::Authorize(id, wn, wp) => {
            lemma_decomp_authorize(s, id, wn, wp);
        },
        MessageModel::Submit(id, wn, jid, ctr) => {
            lemma_decomp_submit(s, id, wn, jid, ctr);
        },
        MessageModel::SetTarget(t) => {
            lemma_decomp_set_target(s, t);
        },
        MessageModel::Notify(jid, eh, ad, clean) => {
            lemma_decomp_notify(s, jid, eh, ad, clean);
        },
        MessageModel::Response(id, res, err) => {
            lemma_decomp_response(s, id, res, err);
        },
    }
}


/// What serializes as a JSON value inside a response; kept for the result
/// payloads the pool may emit.
pub trait BoxedType {
    /// The JSON bytes this value serializes to.
    spec fn json_model(&self) -> Seq<u8>;

    fn to_json(&self) -> (r: Vec<u8>)
        ensures r@ == self.json_model(),
    ;
}

impl BoxedType for Vec<u8> {
    open spec fn json_model(&self) -> Seq<u8> {
        seq![34u8] + self@ + seq![34u8]
    }

    fn to_json(&self) -> (r: Vec<u8>) {
        let mut r: Vec<u8> = Vec::new();
        r.push(34);
        append_bytes(&mut r, self);
        r.push(34);
        proof {
            assert(r@ =~= seq![34u8] + self@ + seq![34u8]);
        }
        r
    }
}

impl BoxedType for Option<u64> {
    open spec fn json_model(&self) -> Seq<u8> {
        match self {
            None => l_null(),
            Some(n) => dec_u64(*n),
        }
    }

    fn to_json(&self) -> (r: Vec<u8>) {
        match self {
            None => l_null_vec(),
            Some(n) => dec_vec(*n),
        }
    }
}

impl BoxedType for Option<Vec<u8>> {
    open spec fn json_model(&self) -> Seq<u8> {
        jopt(match self {
            Some(v) => Some(v@),
            None => None,
        })
    }

    fn to_json(&self) -> (r: Vec<u8>) {
        jopt_vec(self)
    }
}

/// Result of pulling a frame out of the line buffer.
pub enum FrameResult {
    /// No complete line is buffered yet.
    Pending,
    /// One line, newline stripped.
    Frame(Vec<u8>),
    /// The line exceeds the frame limit; the connection should close.
    TooLong,
}

/// Line-delimited framer: splits the inbound byte stream at newlines and
/// refuses frames longer than `MAX_FRAME` bytes.
pub struct StratumCodec {
    buf: Vec<u8>,
}

impl StratumCodec {
    /// Bytes received but not yet framed.
    pub closed spec fn buffered(self) -> Seq<u8> {
        self.buf@
    }

    pub fn new() -> (r: StratumCodec)
        ensures r.buffered() == Seq::<u8>::empty(),
    {
        let r = StratumCodec { buf: Vec::new() };
        proof {
            assert(r.buf@ =~= Seq::<u8>::empty());
        }
        r
    }

    /// Appends raw bytes from the socket.
    pub fn push_bytes(&mut self, data: &Vec<u8>)
        ensures final(self).buffered() == old(self).buffered() + data@,
    {
        append_bytes(&mut self.buf, data);
    }

    /// Takes the next newline-terminated frame off the buffer, if any.
    pub fn next_frame(&mut self) -> (r: FrameResult)
        ensures
            match r {
                FrameResult::Pending => {
                    &&& final(self).buffered() == old(self).buffered()
                    &&& forall|i: int|
                        0 <= i < old(self).buffered().len() ==> old(self).buffered()[i] != 10
                    &&& old(self).buffered().len() <= MAX_FRAME
                },
                FrameResult::Frame(line) => {
                    &&& line@.len() <= MAX_FRAME
                    &&& forall|i: int| 0 <= i < line@.len() ==> line@[i] != 10
                    &&& old(self).buffered().len() > line@.len()
                    &&& old(self).buffered()[line@.len() as int] == 10
                    &&& line@ == old(self).buffered().take(line@.len() as int)
                    &&& final(self).buffered() == old(self).buffered().skip(
                        line@.len() as int + 1,
                    )
                },
                FrameResult::TooLong => {
                    &&& final(self).buffered() == old(self).buffered()
                    &&& old(self).buffered().len() > MAX_FRAME
                    &&& forall|i: int|
                        0 <= i <= MAX_FRAME ==> old(self).buffered()[i] != 10
                },
            },
    {
        let mut i: usize = 0;
        let n = self.buf.len();
        while i < n && self.buf[i] != 10
            invariant
                0 <= i <= n,
                n == self.buf@.len(),
                self.buf@ == old(self).buf@,
                forall|j: int| 0 <= j < i ==> self.buf@[j] != 10,
            decreases n - i,
        {
            i = i + 1;
        }
        if i == n {
            if n > MAX_FRAME {
                return FrameResult::TooLong;
            }
            return FrameResult::Pending;
        }
        if i > MAX_FRAME {
            return FrameResult::TooLong;
        }
        let mut line: Vec<u8> = Vec::new();
        let mut j: usize = 0;
        while j < i
            invariant
                0 <= j <= i < n,
                n == self.buf@.len(),
                self.buf@ == old(self).buf@,
                line@ == self.buf@.take(j as int),
            decreases i - j,
        {
            line.push(self.buf[j]);
            proof {
                assert(self.buf@.take(j + 1) =~= self.buf@.take(j as int).push(
                    self.buf@[j as int],
                ));
            }
            j = j + 1;
        }
        let mut rest: Vec<u8> = Vec::new();
        let mut k: usize = i + 1;
        while k < n
            invariant
                i + 1 <= k <= n,
                n == self.buf@.len(),
                self.buf@ == old(self).buf@,
                rest@ == self.buf@.subrange(i as int + 1, k as int),
            decreases n - k,
        {
            rest.push(self.buf[k]);
            proof {
                assert(self.buf@.subrange(i as int + 1, k + 1) =~= self.buf@.subrange(
                    i as int + 1,
                    k as int,
                ).push(self.buf@[k as int]));
            }
            k = k + 1;
        }
        self.buf = rest;
        proof {
            assert(self.buf@ =~= old(self).buf@.skip(i as int + 1));
            assert(line@ =~= old(self).buf@.take(i as int));
        }
        FrameResult::Frame(line)
    }

    /// Encodes a message and appends the line terminator.
    pub fn encode_frame(&self, m: &StratumMessage) -> (r: Vec<u8>)
        requires valid_model(m@),
        ensures r@ == enc_msg(m@).push(10),
    {
        let mut r = encode(m);
        r.push(10);
        r
    }
}

impl Default for StratumCodec {
    fn default() -> (r: StratumCodec)
        ensures r.buffered() == Seq::<u8>::empty(),
    {
        StratumCodec::new()
    }
}


/// `s` with insignificant whitespace removed: blanks and tabs outside
/// string literals are dropped, bytes inside strings are kept. `in_str`
/// says whether the head of `s` lies inside a string literal.
pub open spec fn strip_ws_from(s: Seq<u8>, in_str: bool) -> Seq<u8>
    decreases s.len(),
{
    if s.len() == 0 {
        Seq::<u8>::empty()
    } else if in_str {
        seq![s[0]] + strip_ws_from(s.skip(1), s[0] != 34)
    } else if s[0] == 34 {
        seq![34u8] + strip_ws_from(s.skip(1), true)
    } else if s[0] == 32 || s[0] == 9 {
        strip_ws_from(s.skip(1), false)
    } else {
        seq![s[0]] + strip_ws_from(s.skip(1), false)
    }
}

/// Removes insignificant whitespace outside string literals.
fn strip_ws(input: &Vec<u8>) -> (r: Vec<u8>)
    ensures r@ == strip_ws_from(input@, false),
{
    let mut r: Vec<u8> = Vec::new();
    let mut in_str: bool = false;
    let mut i: usize = 0;
    let n = input.len();
    proof {
        assert(input@.skip(0) =~= input@);
    }
    while i < n
        invariant
            0 <= i <= n,
            n == input@.len(),
            strip_ws_from(input@, false) == r@ + strip_ws_from(input@.skip(i as int), in_str),
        decreases n - i,
    {
        let b = input[i];
        proof {
            assert(input@.skip(i as int)[0] == input@[i as int]);
            assert(input@.skip(i as int).skip(1) =~= input@.skip(i as int + 1));
        }
        let ghost pre = r@;
        if in_str {
            r.push(b);
            in_str = b != 34;
            proof {
                assert(pre + strip_ws_from(input@.skip(i as int), true) =~= r@ + strip_ws_from(
                    input@.skip(i as int + 1),
                    input@[i as int] != 34,
                ));
            }
        } else if b == 34 {
            r.push(34);
            in_str = true;
            proof {
                assert(pre + strip_ws_from(input@.skip(i as int), false) =~= r@ + strip_ws_from(
                    input@.skip(i as int + 1),
                    true,
                ));
            }
        } else if b == 32 || b == 9 {
            // dropped
        } else {
            r.push(b);
            proof {
                assert(pre + strip_ws_from(input@.skip(i as int), false) =~= r@ + strip_ws_from(
                    input@.skip(i as int + 1),
                    false,
                ));
            }
        }
        i = i + 1;
    }
    proof {
        assert(input@.skip(n as int) =~= Seq::<u8>::empty());
        assert(strip_ws_from(Seq::<u8>::empty(), in_str) =~= Seq::<u8>::empty());
        assert(r@ =~= r@ + Seq::<u8>::empty());
    }
    r
}

/// Decodes a frame, first dropping insignificant whitespace outside
/// strings: it accepts exactly the frames that equal a canonical wire
/// form up to such whitespace, and returns that form's message.
pub fn decode_lenient(input: &Vec<u8>) -> (r: Option<StratumMessage>)
    ensures
        r matches Some(m) ==> valid_model(m@) && strip_ws_from(input@, false) == enc_msg(m@),
        forall|ms: MessageModel|
            valid_model(ms) && strip_ws_from(input@, false) == enc_msg(ms) ==> r is Some
                && r.unwrap()@ == ms,
{
    let stripped = strip_ws(input);
    decode(&stripped)
}

} // verus!







