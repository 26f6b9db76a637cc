//! The JSON-RPC 2.0 envelopes: requests, success and error responses,
//! and subscription notifications, each with its builder, its parser,
//! and a proved round trip through its frame.
use vstd::prelude::*;
use crate::json::{
    JsonV, JsonValue, ser_value, skip_ws, sparse_value, view_fields, lemma_view_fields_index,
    to_text, from_text, str_eq, wf_json, lemma_json_round_trip,
};

verus! {

/// A request identifier on the wire: a number, a string, or null.
/// A null identifier marks a notification, which expects no reply.
#[derive(Debug)]
pub enum Id {
    Num(u64),
    Text(String),
    Null,
}

/// A numeric identifier must fit the wire's signed 64-bit numbers.
pub open spec fn wf_id(id: Id) -> bool {
    id matches Id::Num(n) ==> n <= 0x7fffffffffffffff
}

/// The JSON value that carries an identifier.
pub open spec fn id_jv(id: Id) -> JsonV {
    match id {
        Id::Num(n) => JsonV::Int(n as int),
        Id::Text(t) => JsonV::Text(t@),
        Id::Null => JsonV::Null,
    }
}

/// Whether a JSON value can stand as a request identifier.
pub open spec fn is_id_jv(w: JsonV) -> bool {
    ||| (w matches JsonV::Int(i) && 0 <= i <= 0x7fffffffffffffff)
    ||| w is Text
    ||| w is Null
}

/// The view of optional parameters.
pub open spec fn opt_view(p: Option<JsonValue>) -> Option<JsonV> {
    match p {
        Some(v) => Some(v@),
        None => None,
    }
}

/// The JSON object of a request envelope: version, method, optional
/// params, and the identifier, in that order.
pub open spec fn request_jv(method: Seq<char>, params: Option<JsonV>, id: JsonV) -> JsonV {
    match params {
        Some(p) => JsonV::Obj(
            seq![
                (("jsonrpc")@, JsonV::Text(("2.0")@)),
                (("method")@, JsonV::Text(method)),
                (("params")@, p),
                (("id")@, id),
            ],
        ),
        None => JsonV::Obj(
            seq![
                (("jsonrpc")@, JsonV::Text(("2.0")@)),
                (("method")@, JsonV::Text(method)),
                (("id")@, id),
            ],
        ),
    }
}

/// The JSON object of a success response.
pub open spec fn response_jv(id: JsonV, result: JsonV) -> JsonV {
    JsonV::Obj(
        seq![(("jsonrpc")@, JsonV::Text(("2.0")@)), (("result")@, result), (("id")@, id)],
    )
}

/// The JSON object of an error response: a numeric code and a message.
pub open spec fn error_jv(id: JsonV, code: int, message: Seq<char>) -> JsonV {
    JsonV::Obj(
        seq![
            (("jsonrpc")@, JsonV::Text(("2.0")@)),
            (
                ("error")@,
                JsonV::Obj(
                    seq![(("code")@, JsonV::Int(code)), (("message")@, JsonV::Text(message))],
                ),
            ),
            (("id")@, id),
        ],
    )
}

/// The JSON object of a subscription notification: the subscribe
/// method's name and a params object that names the subscription.
pub open spec fn notification_jv(method: Seq<char>, sub_id: int, result: JsonV) -> JsonV {
    JsonV::Obj(
        seq![
            (("jsonrpc")@, JsonV::Text(("2.0")@)),
            (("method")@, JsonV::Text(method)),
            (
                ("params")@,
                JsonV::Obj(
                    seq![(("subscription")@, JsonV::Int(sub_id)), (("result")@, result)],
                ),
            ),
        ],
    )
}

/// The whole-text meaning of a frame: its one JSON value, if the frame
/// is one well-formed value with nothing but whitespace around it.
pub open spec fn full_jv(t: Seq<char>) -> Option<JsonV> {
    match sparse_value(t, 0) {
        Some(p) => if skip_ws(t, p.1) == t.len() {
            Some(p.0)
        } else {
            None
        },
        None => None,
    }
}

/// A copy of an identifier, equal in meaning.
pub fn clone_id(id: &Id) -> (r: Id)
    ensures
        id_jv(r) == id_jv(*id),
        wf_id(r) == wf_id(*id),
        r is Null <==> *id is Null,
{
    match id {
        Id::Num(n) => Id::Num(*n),
        Id::Text(t) => Id::Text(t.clone()),
        Id::Null => Id::Null,
    }
}

/// An identifier value carried as JSON.
fn id_value(id: Id) -> (r: JsonValue)
    requires
        wf_id(id),
    ensures
        r@ == id_jv(id),
{
    match id {
        Id::Num(n) => JsonValue::Int(n as i64),
        Id::Text(t) => JsonValue::Text(t),
        Id::Null => JsonValue::Null,
    }
}

/// The frame of a request envelope.
pub fn request_frame(method: &str, params: Option<JsonValue>, id: Id) -> (r: String)
    requires
        wf_id(id),
    ensures
        r@ == ser_value(request_jv(method@, opt_view(params), id_jv(id))),
{
    let ghost pv = opt_view(params);
    let mut fields: Vec<(String, JsonValue)> = Vec::new();
    fields.push((String::from_str("jsonrpc"), JsonValue::Text(String::from_str("2.0"))));
    fields.push((String::from_str("method"), JsonValue::Text(String::from_str(method))));
    match params {
        Some(p) => fields.push((String::from_str("params"), p)),
        None => {},
    }
    fields.push((String::from_str("id"), id_value(id)));
    let v = JsonValue::Obj(fields);
    proof {
        lemma_fields_literal(v->Obj_0@);
        assert(view_fields(v->Obj_0@) =~= request_jv(method@, pv, id_jv(id))->Obj_0);
    }
    to_text(&v)
}

/// The frame of a success response.
pub fn response_frame(id: Id, result: JsonValue) -> (r: String)
    requires
        wf_id(id),
    ensures
        r@ == ser_value(response_jv(id_jv(id), result@)),
{
    let ghost rv = result@;
    let mut fields: Vec<(String, JsonValue)> = Vec::new();
    fields.push((String::from_str("jsonrpc"), JsonValue::Text(String::from_str("2.0"))));
    fields.push((String::from_str("result"), result));
    fields.push((String::from_str("id"), id_value(id)));
    let v = JsonValue::Obj(fields);
    proof {
        lemma_fields_literal(v->Obj_0@);
        assert(view_fields(v->Obj_0@) =~= response_jv(id_jv(id), rv)->Obj_0);
    }
    to_text(&v)
}

/// The frame of an error response.
pub fn error_frame(id: Id, code: i64, message: &str) -> (r: String)
    requires
        wf_id(id),
    ensures
        r@ == ser_value(error_jv(id_jv(id), code as int, message@)),
{
    let mut err_fields: Vec<(String, JsonValue)> = Vec::new();
    err_fields.push((String::from_str("code"), JsonValue::Int(code)));
    err_fields.push((String::from_str("message"), JsonValue::Text(String::from_str(message))));
    let err = JsonValue::Obj(err_fields);
    proof {
        lemma_fields_literal(err->Obj_0@);
        assert(view_fields(err->Obj_0@) =~= seq![
            (("code")@, JsonV::Int(code as int)),
            (("message")@, JsonV::Text(message@)),
        ]);
    }
    let mut fields: Vec<(String, JsonValue)> = Vec::new();
    fields.push((String::from_str("jsonrpc"), JsonValue::Text(String::from_str("2.0"))));
    fields.push((String::from_str("error"), err));
    fields.push((String::from_str("id"), id_value(id)));
    let v = JsonValue::Obj(fields);
    proof {
        lemma_fields_literal(v->Obj_0@);
        assert(view_fields(v->Obj_0@) =~= error_jv(id_jv(id), code as int, message@)->Obj_0);
    }
    to_text(&v)
}

/// The frame of a subscription notification.
pub fn notification_frame(method: &str, sub_id: u64, result: JsonValue) -> (r: String)
    requires
        sub_id <= 0x7fffffffffffffff,
    ensures
        r@ == ser_value(notification_jv(method@, sub_id as int, result@)),
{
    let ghost rv = result@;
    let mut p_fields: Vec<(String, JsonValue)> = Vec::new();
    p_fields.push((String::from_str("subscription"), JsonValue::Int(sub_id as i64)));
    p_fields.push((String::from_str("result"), result));
    let p = JsonValue::Obj(p_fields);
    proof {
        lemma_fields_literal(p->Obj_0@);
        assert(view_fields(p->Obj_0@) =~= seq![
            (("subscription")@, JsonV::Int(sub_id as int)),
            (("result")@, rv),
        ]);
    }
    let mut fields: Vec<(String, JsonValue)> = Vec::new();
    fields.push((String::from_str("jsonrpc"), JsonValue::Text(String::from_str("2.0"))));
    fields.push((String::from_str("method"), JsonValue::Text(String::from_str(method))));
    fields.push((String::from_str("params"), p));
    let v = JsonValue::Obj(fields);
    proof {
        lemma_fields_literal(v->Obj_0@);
        assert(view_fields(v->Obj_0@) =~= notification_jv(method@, sub_id as int, rv)->Obj_0);
    }
    to_text(&v)
}

/// The member views of a short member vector, element by element.
proof fn lemma_fields_literal(s: Seq<(String, JsonValue)>)
    ensures
        view_fields(s).len() == s.len(),
        forall|j: int| 0 <= j < s.len() ==> view_fields(s)[j] == (s[j].0@, s[j].1@),
{
    assert forall|j: int| 0 <= j < s.len() implies view_fields(s)[j] == (s[j].0@, s[j].1@) by {
        lemma_view_fields_index(s, j);
    }
    lemma_view_fields_index(s, -1);
}


/// A parsed request envelope.
#[derive(Debug)]
pub struct Request {
    pub method: String,
    pub params: Option<JsonValue>,
    pub id: Id,
}

/// Why an inbound frame is not a request: it is not one JSON value, or
/// it is a value of the wrong shape.
#[derive(Debug)]
pub enum ParseFault {
    Malformed,
    Invalid,
}

/// The first value under a key among an object's members.
pub open spec fn obj_get(fs: Seq<(Seq<char>, JsonV)>, k: Seq<char>) -> Option<JsonV>
    decreases fs,
{
    if fs.len() == 0 {
        None
    } else if fs[0].0 == k {
        Some(fs[0].1)
    } else {
        obj_get(fs.drop_first(), k)
    }
}

/// Stepping a lookup past a member with another key.
proof fn lemma_obj_get_step(fs: Seq<(Seq<char>, JsonV)>, k: Seq<char>)
    requires
        fs.len() > 0,
        fs[0].0 != k,
    ensures
        obj_get(fs, k) == obj_get(fs.drop_first(), k),
{
}

/// A lookup stops on the member that carries its key.
proof fn lemma_obj_get_hit(fs: Seq<(Seq<char>, JsonV)>, k: Seq<char>)
    requires
        fs.len() > 0,
        fs[0].0 == k,
    ensures
        obj_get(fs, k) == Some(fs[0].1),
{
}

/// The member under a key, by the first match.
fn get_field<'a>(fields: &'a Vec<(String, JsonValue)>, k: &str) -> (r: Option<&'a JsonValue>)
    ensures
        r matches Some(v) ==> obj_get(view_fields(fields@), k@) == Some((*v)@),
        r is None ==> obj_get(view_fields(fields@), k@) is None,
{
    let ghost ms = view_fields(fields@);
    let mut i: usize = 0;
    proof {
        lemma_fields_literal(fields@);
        assert(ms.subrange(0, ms.len() as int) =~= ms);
    }
    while i < fields.len()
        invariant
            i <= fields@.len(),
            ms == view_fields(fields@),
            ms.len() == fields@.len(),
            forall|j: int| 0 <= j < ms.len() ==> #[trigger] ms[j] == (fields@[j].0@, fields@[j].1@),
            obj_get(ms, k@) == obj_get(ms.subrange(i as int, ms.len() as int), k@),
        decreases fields@.len() - i,
    {
        proof {
            assert(ms.subrange(i as int, ms.len() as int)[0] == ms[i as int]);
        }
        if str_eq(fields[i].0.as_str(), k) {
            proof {
                lemma_obj_get_hit(ms.subrange(i as int, ms.len() as int), k@);
            }
            return Some(&fields[i].1);
        }
        proof {
            lemma_obj_get_step(ms.subrange(i as int, ms.len() as int), k@);
            assert(ms.subrange(i as int, ms.len() as int).drop_first() =~= ms.subrange(
                i + 1,
                ms.len() as int,
            ));
        }
        i = i + 1;
    }
    proof {
        assert(ms.subrange(ms.len() as int, ms.len() as int) =~= Seq::<(Seq<char>, JsonV)>::empty());
    }
    None
}

/// The request carried by a JSON value, if it has the request shape.
pub open spec fn request_of(w: JsonV) -> Option<(Seq<char>, Option<JsonV>, JsonV)> {
    match w {
        JsonV::Obj(fs) => if obj_get(fs, ("jsonrpc")@) != Some(JsonV::Text(("2.0")@)) {
            None
        } else {
            match (obj_get(fs, ("method")@), obj_get(fs, ("id")@)) {
                (Some(mv), Some(idv)) => if !(mv is Text && is_id_jv(idv)) {
                    None
                } else {
                    match obj_get(fs, ("params")@) {
                        Some(p) => if fs.len() == 4 {
                            Some((mv->Text_0, Some(p), idv))
                        } else {
                            None
                        },
                        None => if fs.len() == 3 {
                            Some((mv->Text_0, None::<JsonV>, idv))
                        } else {
                            None
                        },
                    }
                },
                _ => None,
            }
        },
        _ => None,
    }
}

/// Read an identifier out of its JSON value.
fn id_of_value(v: &JsonValue) -> (r: Option<Id>)
    ensures
        r matches Some(id) ==> is_id_jv(v@) && id_jv(id) == v@ && wf_id(id),
        r is None ==> !is_id_jv(v@),
{
    match v {
        JsonValue::Int(i) => if *i >= 0 {
            Some(Id::Num(*i as u64))
        } else {
            None
        },
        JsonValue::Text(t) => Some(Id::Text(t.clone())),
        JsonValue::Null => Some(Id::Null),
        _ => None,
    }
}

/// Read a request envelope out of a frame. `Malformed` is a frame that
/// is not one JSON value; `Invalid` is a value without the request
/// shape.
pub fn parse_request(frame: &str) -> (r: Result<Request, ParseFault>)
    ensures
        r matches Ok(req) ==> {
            &&& full_jv(frame@) matches Some(w)
            &&& request_of(w) == Some((req.method@, opt_view(req.params), id_jv(req.id)))
            &&& wf_id(req.id)
        },
        r == Err::<Request, ParseFault>(ParseFault::Malformed) ==> full_jv(frame@) is None,
        r == Err::<Request, ParseFault>(ParseFault::Invalid) ==> (full_jv(frame@) matches Some(w)
            && request_of(w) is None),
{
    let v = match from_text(frame) {
        Some(v) => v,
        None => {
            return Err(ParseFault::Malformed);
        },
    };
    let ghost w = v@;
    let fields = match v {
        JsonValue::Obj(fields) => fields,
        _ => {
            return Err(ParseFault::Invalid);
        },
    };
    proof {
        lemma_fields_literal(fields@);
    }
    let version_ok = match get_field(&fields, "jsonrpc") {
        Some(JsonValue::Text(t)) => str_eq(t.as_str(), "2.0"),
        _ => false,
    };
    if !version_ok {
        return Err(ParseFault::Invalid);
    }
    let method = match get_field(&fields, "method") {
        Some(JsonValue::Text(t)) => t.clone(),
        _ => {
            return Err(ParseFault::Invalid);
        },
    };
    let id = match get_field(&fields, "id") {
        Some(idv) => match id_of_value(idv) {
            Some(id) => id,
            None => {
                return Err(ParseFault::Invalid);
            },
        },
        None => {
            return Err(ParseFault::Invalid);
        },
    };
    let params = match get_field(&fields, "params") {
        Some(p) => Some(crate::json::clone_value(p)),
        None => None,
    };
    let len_ok = match &params {
        Some(_) => fields.len() == 4,
        None => fields.len() == 3,
    };
    if !len_ok {
        return Err(ParseFault::Invalid);
    }
    Ok(Request { method, params, id })
}

/// The meaning of a frame the client may receive.
pub enum ReplyV {
    Success { id: int, result: JsonV },
    Failure { id: int, code: int, message: Seq<char> },
    Push { method: Seq<char>, sub_id: int, result: JsonV },
}

/// A parsed frame on the client side: a success response, an error
/// response, or a subscription notification.
#[derive(Debug)]
pub enum Reply {
    Success { id: u64, result: JsonValue },
    Failure { id: u64, code: i64, message: String },
    Push { method: String, sub_id: u64, result: JsonValue },
}

/// The mathematical value of a parsed reply.
pub open spec fn reply_view(r: Reply) -> ReplyV {
    match r {
        Reply::Success { id, result } => ReplyV::Success { id: id as int, result: result@ },
        Reply::Failure { id, code, message } => ReplyV::Failure {
            id: id as int,
            code: code as int,
            message: message@,
        },
        Reply::Push { method, sub_id, result } => ReplyV::Push {
            method: method@,
            sub_id: sub_id as int,
            result: result@,
        },
    }
}

/// The reply carried by a JSON value, if it has one of the three reply
/// shapes.
pub open spec fn reply_of(w: JsonV) -> Option<ReplyV> {
    match w {
        JsonV::Obj(fs) => if obj_get(fs, ("jsonrpc")@) != Some(JsonV::Text(("2.0")@)) {
            None
        } else if obj_get(fs, ("result")@) is Some && fs.len() == 3 {
            match (obj_get(fs, ("result")@), obj_get(fs, ("id")@)) {
                (Some(res), Some(JsonV::Int(i))) => if 0 <= i <= 0x7fffffffffffffff {
                    Some(ReplyV::Success { id: i, result: res })
                } else {
                    None
                },
                _ => None,
            }
        } else if obj_get(fs, ("error")@) is Some && fs.len() == 3 {
            match (obj_get(fs, ("error")@), obj_get(fs, ("id")@)) {
                (Some(JsonV::Obj(efs)), Some(JsonV::Int(i))) => if !(0 <= i
                    <= 0x7fffffffffffffff && efs.len() == 2) {
                    None
                } else {
                    match (obj_get(efs, ("code")@), obj_get(efs, ("message")@)) {
                        (Some(JsonV::Int(c)), Some(JsonV::Text(m))) => if -0x8000000000000000 <= c
                            <= 0x7fffffffffffffff {
                            Some(ReplyV::Failure { id: i, code: c, message: m })
                        } else {
                            None
                        },
                        _ => None,
                    }
                },
                _ => None,
            }
        } else if obj_get(fs, ("method")@) is Some && fs.len() == 3 {
            match (obj_get(fs, ("method")@), obj_get(fs, ("params")@)) {
                (Some(JsonV::Text(m)), Some(JsonV::Obj(pfs))) => if pfs.len() != 2 {
                    None
                } else {
                    match (obj_get(pfs, ("subscription")@), obj_get(pfs, ("result")@)) {
                        (Some(JsonV::Int(sid)), Some(res)) => if 0 <= sid <= 0x7fffffffffffffff {
                            Some(ReplyV::Push { method: m, sub_id: sid, result: res })
                        } else {
                            None
                        },
                        _ => None,
                    }
                },
                _ => None,
            }
        } else {
            None
        },
        _ => None,
    }
}

/// Read a reply out of a frame the client received. A frame that is
/// not one JSON value of a reply shape yields nothing and is dropped
/// by callers.
#[verifier::rlimit(60)]
pub fn parse_reply(frame: &str) -> (r: Option<Reply>)
    ensures
        r matches Some(rep) ==> (full_jv(frame@) matches Some(w) && reply_of(w) == Some(
            reply_view(rep),
        )),
        r is None ==> (full_jv(frame@) is None || (full_jv(frame@) matches Some(w) && reply_of(w)
            is None)),
{
    let v = match from_text(frame) {
        Some(v) => v,
        None => {
            return None;
        },
    };
    let ghost w = v@;
    let fields = match v {
        JsonValue::Obj(fields) => fields,
        _ => {
            return None;
        },
    };
    proof {
        lemma_fields_literal(fields@);
    }
    let version_ok = match get_field(&fields, "jsonrpc") {
        Some(JsonValue::Text(t)) => str_eq(t.as_str(), "2.0"),
        _ => false,
    };
    if !version_ok {
        return None;
    }
    let has_result = match get_field(&fields, "result") {
        Some(_) => true,
        None => false,
    };
    if has_result && fields.len() == 3 {
        let result = match get_field(&fields, "result") {
            Some(r) => crate::json::clone_value(r),
            None => {
                proof {
                    assert(false);
                }
                return None;
            },
        };
        let id: u64 = match get_field(&fields, "id") {
            Some(JsonValue::Int(i)) => if *i >= 0 {
                *i as u64
            } else {
                return None;
            },
            _ => {
                return None;
            },
        };
        return Some(Reply::Success { id, result });
    }
    let has_error = match get_field(&fields, "error") {
        Some(_) => true,
        None => false,
    };
    if has_error && fields.len() == 3 {
        let efields = match get_field(&fields, "error") {
            Some(JsonValue::Obj(efields)) => efields,
            _ => {
                return None;
            },
        };
        proof {
            lemma_fields_literal(efields@);
        }
        let id: u64 = match get_field(&fields, "id") {
            Some(JsonValue::Int(i)) => if *i >= 0 {
                *i as u64
            } else {
                return None;
            },
            _ => {
                return None;
            },
        };
        if efields.len() != 2 {
            return None;
        }
        let code: i64 = match get_field(efields, "code") {
            Some(JsonValue::Int(c)) => *c,
            _ => {
                return None;
            },
        };
        let message = match get_field(efields, "message") {
            Some(JsonValue::Text(t)) => t.clone(),
            _ => {
                return None;
            },
        };
        return Some(Reply::Failure { id, code, message });
    }
    let has_method = match get_field(&fields, "method") {
        Some(_) => true,
        None => false,
    };
    if has_method && fields.len() == 3 {
        let method = match get_field(&fields, "method") {
            Some(JsonValue::Text(t)) => t.clone(),
            _ => {
                return None;
            },
        };
        let pfields = match get_field(&fields, "params") {
            Some(JsonValue::Obj(pfields)) => pfields,
            _ => {
                return None;
            },
        };
        proof {
            lemma_fields_literal(pfields@);
        }
        if pfields.len() != 2 {
            return None;
        }
        let sub_id: u64 = match get_field(pfields, "subscription") {
            Some(JsonValue::Int(i)) => if *i >= 0 {
                *i as u64
            } else {
                return None;
            },
            _ => {
                return None;
            },
        };
        let result = match get_field(pfields, "result") {
            Some(r) => crate::json::clone_value(r),
            None => {
                return None;
            },
        };
        return Some(Reply::Push { method, sub_id, result });
    }
    None
}


/// The envelope keys are pairwise distinct.
proof fn lemma_keys_distinct()
    ensures
        ("jsonrpc")@ != ("method")@,
        ("jsonrpc")@ != ("params")@,
        ("jsonrpc")@ != ("id")@,
        ("jsonrpc")@ != ("result")@,
        ("jsonrpc")@ != ("error")@,
        ("method")@ != ("params")@,
        ("method")@ != ("id")@,
        ("method")@ != ("result")@,
        ("method")@ != ("error")@,
        ("params")@ != ("id")@,
        ("params")@ != ("result")@,
        ("params")@ != ("error")@,
        ("result")@ != ("id")@,
        ("result")@ != ("error")@,
        ("error")@ != ("id")@,
        ("code")@ != ("message")@,
        ("subscription")@ != ("result")@,
{
    reveal_strlit("jsonrpc");
    reveal_strlit("method");
    reveal_strlit("params");
    reveal_strlit("id");
    reveal_strlit("result");
    reveal_strlit("error");
    reveal_strlit("code");
    reveal_strlit("message");
    reveal_strlit("subscription");
    assert(("jsonrpc")@.len() == 7);
    assert(("method")@.len() == 6);
    assert(("params")@.len() == 6);
    assert(("id")@.len() == 2);
    assert(("result")@.len() == 6);
    assert(("error")@.len() == 5);
    assert(("code")@.len() == 4);
    assert(("message")@.len() == 7);
    assert(("subscription")@.len() == 12);
    assert(("method")@[0] == 'm');
    assert(("params")@[0] == 'p');
    assert(("result")@[0] == 'r');
    assert(("jsonrpc")@[0] == 'j');
    assert(("message")@[0] == 'm');
}

/// Law: a request frame parses back to the request it was built from.
/// The frame of `request_jv` is one JSON value, and that value has the
/// request shape with the same method, params and identifier.
pub proof fn lemma_request_round_trip(method: Seq<char>, params: Option<JsonV>, id: JsonV)
    requires
        is_id_jv(id),
        params matches Some(p) ==> wf_json(p),
    ensures
        full_jv(ser_value(request_jv(method, params, id))) == Some(request_jv(method, params, id)),
        request_of(request_jv(method, params, id)) == Some((method, params, id)),
{
    let w = request_jv(method, params, id);
    let fs = w->Obj_0;
    assert(wf_json(w)) by {
        match params {
            Some(p) => {
                assert(fs[0].1 == JsonV::Text(("2.0")@));
                assert(fs[1].1 == JsonV::Text(method));
                assert(fs[2].1 == p);
                assert(fs[3].1 == id);
                assert(forall|i: int| 0 <= i < fs.len() ==> wf_json(#[trigger] fs[i].1));
            },
            None => {
                assert(fs[0].1 == JsonV::Text(("2.0")@));
                assert(fs[1].1 == JsonV::Text(method));
                assert(fs[2].1 == id);
                assert(forall|i: int| 0 <= i < fs.len() ==> wf_json(#[trigger] fs[i].1));
            },
        }
    }
    lemma_json_round_trip(w);
    lemma_keys_distinct();
    let fs1 = fs.drop_first();
    let fs2 = fs1.drop_first();
    assert(fs1[0] == fs[1]);
    assert(fs2[0] == fs[2]);
    lemma_obj_get_hit(fs, ("jsonrpc")@);
    lemma_obj_get_step(fs, ("method")@);
    lemma_obj_get_hit(fs1, ("method")@);
    lemma_obj_get_step(fs, ("id")@);
    lemma_obj_get_step(fs1, ("id")@);
    match params {
        Some(p) => {
            let fs3 = fs2.drop_first();
            assert(fs3[0] == fs[3]);
            lemma_obj_get_step(fs, ("params")@);
            lemma_obj_get_step(fs1, ("params")@);
            lemma_obj_get_hit(fs2, ("params")@);
            lemma_obj_get_step(fs2, ("id")@);
            lemma_obj_get_hit(fs3, ("id")@);
        },
        None => {
            lemma_obj_get_hit(fs2, ("id")@);
            lemma_obj_get_step(fs, ("params")@);
            lemma_obj_get_step(fs1, ("params")@);
            lemma_obj_get_step(fs2, ("params")@);
            assert(fs2.drop_first().len() == 0);
            assert(obj_get(fs2.drop_first(), ("params")@) is None);
        },
    }
}

/// Law: a success-response frame parses back to the same identifier
/// and result.
pub proof fn lemma_response_round_trip(id: int, result: JsonV)
    requires
        0 <= id <= 0x7fffffffffffffff,
        wf_json(result),
    ensures
        full_jv(ser_value(response_jv(JsonV::Int(id), result))) == Some(
            response_jv(JsonV::Int(id), result),
        ),
        reply_of(response_jv(JsonV::Int(id), result)) == Some(
            ReplyV::Success { id: id, result: result },
        ),
{
    let w = response_jv(JsonV::Int(id), result);
    let fs = w->Obj_0;
    assert(wf_json(w)) by {
        assert(fs[0].1 == JsonV::Text(("2.0")@));
        assert(fs[1].1 == result);
        assert(fs[2].1 == JsonV::Int(id));
        assert(forall|i: int| 0 <= i < fs.len() ==> wf_json(#[trigger] fs[i].1));
    }
    lemma_json_round_trip(w);
    lemma_keys_distinct();
    let fs1 = fs.drop_first();
    let fs2 = fs1.drop_first();
    assert(fs1[0] == fs[1]);
    assert(fs2[0] == fs[2]);
    lemma_obj_get_hit(fs, ("jsonrpc")@);
    lemma_obj_get_step(fs, ("result")@);
    lemma_obj_get_hit(fs1, ("result")@);
    lemma_obj_get_step(fs, ("id")@);
    lemma_obj_get_step(fs1, ("id")@);
    lemma_obj_get_hit(fs2, ("id")@);
}

/// Law: an error-response frame parses back to the same identifier,
/// code and message.
pub proof fn lemma_error_round_trip(id: int, code: int, message: Seq<char>)
    requires
        0 <= id <= 0x7fffffffffffffff,
        -0x8000000000000000 <= code <= 0x7fffffffffffffff,
    ensures
        full_jv(ser_value(error_jv(JsonV::Int(id), code, message))) == Some(
            error_jv(JsonV::Int(id), code, message),
        ),
        reply_of(error_jv(JsonV::Int(id), code, message)) == Some(
            ReplyV::Failure { id: id, code: code, message: message },
        ),
{
    let w = error_jv(JsonV::Int(id), code, message);
    let fs = w->Obj_0;
    let efs = fs[1].1->Obj_0;
    assert(wf_json(w)) by {
        assert(efs[0].1 == JsonV::Int(code));
        assert(efs[1].1 == JsonV::Text(message));
        assert(forall|i: int| 0 <= i < efs.len() ==> wf_json(#[trigger] efs[i].1));
        assert(fs[0].1 == JsonV::Text(("2.0")@));
        assert(wf_json(fs[1].1));
        assert(fs[2].1 == JsonV::Int(id));
        assert(forall|i: int| 0 <= i < fs.len() ==> wf_json(#[trigger] fs[i].1));
    }
    lemma_json_round_trip(w);
    lemma_keys_distinct();
    let fs1 = fs.drop_first();
    let fs2 = fs1.drop_first();
    assert(fs1[0] == fs[1]);
    assert(fs2[0] == fs[2]);
    lemma_obj_get_hit(fs, ("jsonrpc")@);
    // no result member
    lemma_obj_get_step(fs, ("result")@);
    lemma_obj_get_step(fs1, ("result")@);
    lemma_obj_get_step(fs2, ("result")@);
    assert(fs2.drop_first().len() == 0);
    assert(obj_get(fs2.drop_first(), ("result")@) is None);
    lemma_obj_get_step(fs, ("error")@);
    lemma_obj_get_hit(fs1, ("error")@);
    lemma_obj_get_step(fs, ("id")@);
    lemma_obj_get_step(fs1, ("id")@);
    lemma_obj_get_hit(fs2, ("id")@);
    let efs1 = efs.drop_first();
    assert(efs1[0] == efs[1]);
    lemma_obj_get_hit(efs, ("code")@);
    lemma_obj_get_step(efs, ("message")@);
    lemma_obj_get_hit(efs1, ("message")@);
}

/// Law: a subscription-notification frame parses back to the same
/// method, subscription identifier and payload.
pub proof fn lemma_notification_round_trip(method: Seq<char>, sub_id: int, result: JsonV)
    requires
        0 <= sub_id <= 0x7fffffffffffffff,
        wf_json(result),
    ensures
        full_jv(ser_value(notification_jv(method, sub_id, result))) == Some(
            notification_jv(method, sub_id, result),
        ),
        reply_of(notification_jv(method, sub_id, result)) == Some(
            ReplyV::Push { method: method, sub_id: sub_id, result: result },
        ),
{
    let w = notification_jv(method, sub_id, result);
    let fs = w->Obj_0;
    let pfs = fs[2].1->Obj_0;
    assert(wf_json(w)) by {
        assert(pfs[0].1 == JsonV::Int(sub_id));
        assert(pfs[1].1 == result);
        assert(forall|i: int| 0 <= i < pfs.len() ==> wf_json(#[trigger] pfs[i].1));
        assert(fs[0].1 == JsonV::Text(("2.0")@));
        assert(fs[1].1 == JsonV::Text(method));
        assert(wf_json(fs[2].1));
        assert(forall|i: int| 0 <= i < fs.len() ==> wf_json(#[trigger] fs[i].1));
    }
    lemma_json_round_trip(w);
    lemma_keys_distinct();
    let fs1 = fs.drop_first();
    let fs2 = fs1.drop_first();
    assert(fs1[0] == fs[1]);
    assert(fs2[0] == fs[2]);
    lemma_obj_get_hit(fs, ("jsonrpc")@);
    // neither a result nor an error member
    lemma_obj_get_step(fs, ("result")@);
    lemma_obj_get_step(fs1, ("result")@);
    lemma_obj_get_step(fs2, ("result")@);
    assert(fs2.drop_first().len() == 0);
    assert(obj_get(fs2.drop_first(), ("result")@) is None);
    lemma_obj_get_step(fs, ("error")@);
    lemma_obj_get_step(fs1, ("error")@);
    lemma_obj_get_step(fs2, ("error")@);
    assert(obj_get(fs2.drop_first(), ("error")@) is None);
    lemma_obj_get_step(fs, ("method")@);
    lemma_obj_get_hit(fs1, ("method")@);
    lemma_obj_get_step(fs, ("params")@);
    lemma_obj_get_step(fs1, ("params")@);
    lemma_obj_get_hit(fs2, ("params")@);
    let pfs1 = pfs.drop_first();
    assert(pfs1[0] == pfs[1]);
    lemma_obj_get_hit(pfs, ("subscription")@);
    lemma_obj_get_step(pfs, ("result")@);
    lemma_obj_get_hit(pfs1, ("result")@);
}

} // verus!
