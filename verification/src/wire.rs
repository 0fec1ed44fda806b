//! The wire protocol: requests and responses as self-delimiting JSON
//! objects over TCP, the server's dispatch of a request to the engine, and
//! the client-side reading of responses.
//!
//! Requests are `{"Get":{"key":K}}`, `{"Set":{"key":K,"value":V}}` and
//! `{"Remove":{"key":K}}`; a response is `{"Ok":null}`, `{"Ok":V}` or
//! `{"Err":M}`.

use vstd::prelude::*;
use crate::errors::KvError;
use crate::json::{jstr, parse_str_body, parse_str_body_exec, push_jstr};
use crate::record::{
    Rec,
    Command,
    rec_text,
    parse_rec,
    matches_at,
    match_at,
    encode_command,
    parse_command,
};
use crate::store::{KvStore, WriteEffect, rec_text_room};
use crate::text::{string_to_chars, chars_to_string};

verus! {

/// The mathematical form of a request.
pub enum ReqV {
    Get { key: Seq<char> },
    Put { key: Seq<char>, value: Seq<char> },
    Remove { key: Seq<char> },
}

/// One request from a client.
pub enum Request {
    Get { key: String },
    Put { key: String, value: String },
    Remove { key: String },
}

impl View for Request {
    type V = ReqV;

    open spec fn view(&self) -> ReqV {
        match self {
            Request::Get { key } => ReqV::Get { key: key@ },
            Request::Put { key, value } => ReqV::Put { key: key@, value: value@ },
            Request::Remove { key } => ReqV::Remove { key: key@ },
        }
    }
}

/// The mathematical form of a response.
pub enum RespV {
    Value { value: Option<Seq<char>> },
    Error { message: Seq<char> },
}

/// One response to a request: a value (or `None` for a missing key on
/// `get`, and for plain success on `set`/`remove`), or an error message.
pub enum Response {
    Value { value: Option<String> },
    Error { message: String },
}

impl View for Response {
    type V = RespV;

    open spec fn view(&self) -> RespV {
        match self {
            Response::Value { value: Some(v) } => RespV::Value { value: Some(v@) },
            Response::Value { value: None } => RespV::Value { value: None },
            Response::Error { message } => RespV::Error { message: message@ },
        }
    }
}

/// The opening of a `Get` request, up to the key literal.
pub open spec fn get_open() -> Seq<char> {
    seq!['{', '"', 'G', 'e', 't', '"', ':', '{', '"', 'k', 'e', 'y', '"', ':']
}

/// The exact text of a request on the wire.
pub open spec fn req_text(r: ReqV) -> Seq<char> {
    match r {
        ReqV::Get { key } => get_open() + jstr(key) + seq!['}', '}'],
        ReqV::Put { key, value } => rec_text(Rec::Put { key, value }),
        ReqV::Remove { key } => rec_text(Rec::Remove { key }),
    }
}

/// The opening of a successful response.
pub open spec fn ok_open() -> Seq<char> {
    seq!['{', '"', 'O', 'k', '"', ':']
}

/// The opening of a failed response.
pub open spec fn err_open() -> Seq<char> {
    seq!['{', '"', 'E', 'r', 'r', '"', ':']
}

/// The text of a `null` value and closing brace.
pub open spec fn null_close() -> Seq<char> {
    seq!['n', 'u', 'l', 'l', '}']
}

/// The exact text of a response on the wire.
pub open spec fn resp_text(r: RespV) -> Seq<char> {
    match r {
        RespV::Value { value: None } => ok_open() + null_close(),
        RespV::Value { value: Some(v) } => ok_open() + jstr(v) + seq!['}'],
        RespV::Error { message } => err_open() + jstr(message) + seq!['}'],
    }
}

/// What parsing one request at `pos` yields.
pub open spec fn parse_req(t: Seq<char>, pos: int) -> Option<(ReqV, int)> {
    if matches_at(t, pos, get_open()) {
        let p1 = pos + get_open().len();
        match parse_str_body(t, p1 + 1) {
            None => None,
            Some((key, p2)) => {
                if p1 < t.len() && t[p1] == '"' && matches_at(t, p2, seq!['}', '}']) {
                    Some((ReqV::Get { key }, p2 + 2))
                } else {
                    None
                }
            },
        }
    } else {
        match parse_rec(t, pos) {
            None => None,
            Some((Rec::Put { key, value }, end)) => Some((ReqV::Put { key, value }, end)),
            Some((Rec::Remove { key }, end)) => Some((ReqV::Remove { key }, end)),
        }
    }
}

/// What parsing one response at `pos` yields.
pub open spec fn parse_resp(t: Seq<char>, pos: int) -> Option<(RespV, int)> {
    if matches_at(t, pos, ok_open()) {
        let p1 = pos + ok_open().len();
        if matches_at(t, p1, null_close()) {
            Some((RespV::Value { value: None }, p1 + null_close().len()))
        } else {
            match parse_str_body(t, p1 + 1) {
                None => None,
                Some((v, p2)) => {
                    if p1 < t.len() && t[p1] == '"' && matches_at(t, p2, seq!['}']) {
                        Some((RespV::Value { value: Some(v) }, p2 + 1))
                    } else {
                        None
                    }
                },
            }
        }
    } else if matches_at(t, pos, err_open()) {
        let p1 = pos + err_open().len();
        match parse_str_body(t, p1 + 1) {
            None => None,
            Some((m, p2)) => {
                if p1 < t.len() && t[p1] == '"' && matches_at(t, p2, seq!['}']) {
                    Some((RespV::Error { message: m }, p2 + 1))
                } else {
                    None
                }
            },
        }
    } else {
        None
    }
}

/// Appends the opening of a `Get` request to `out`.
fn push_get_open(out: &mut Vec<char>)
    ensures
        final(out)@ == old(out)@ + get_open(),
{
    let ghost start = out@;
    out.push('{');
    out.push('"');
    out.push('G');
    out.push('e');
    out.push('t');
    out.push('"');
    out.push(':');
    out.push('{');
    out.push('"');
    out.push('k');
    out.push('e');
    out.push('y');
    out.push('"');
    out.push(':');
    proof {
        assert(out@ =~= start + get_open());
    }
}

/// The characters of [`get_open`].
fn get_open_chars() -> (r: Vec<char>)
    ensures
        r@ == get_open(),
{
    let mut out: Vec<char> = Vec::new();
    push_get_open(&mut out);
    proof {
        assert(out@ =~= get_open());
    }
    out
}

/// Renders a request as its exact wire text.
pub fn encode_request(req: &Request) -> (r: Vec<char>)
    ensures
        r@ == req_text(req@),
{
    match req {
        Request::Get { key } => {
            let mut out: Vec<char> = Vec::new();
            push_get_open(&mut out);
            let kc = string_to_chars(key.as_str());
            push_jstr(&mut out, &kc);
            out.push('}');
            out.push('}');
            proof {
                assert(out@ =~= req_text(req@));
            }
            out
        },
        Request::Put { key, value } => {
            let cmd = Command::Put { key: key.clone(), value: value.clone() };
            let out = encode_command(&cmd);
            proof {
                assert(out@ == req_text(req@));
            }
            out
        },
        Request::Remove { key } => {
            let cmd = Command::Remove { key: key.clone() };
            let out = encode_command(&cmd);
            proof {
                assert(out@ == req_text(req@));
            }
            out
        },
    }
}

/// Renders a response as its exact wire text.
pub fn encode_response(resp: &Response) -> (r: Vec<char>)
    ensures
        r@ == resp_text(resp@),
{
    let mut out: Vec<char> = Vec::new();
    out.push('{');
    out.push('"');
    match resp {
        Response::Value { value } => {
            out.push('O');
            out.push('k');
            out.push('"');
            out.push(':');
            match value {
                None => {
                    out.push('n');
                    out.push('u');
                    out.push('l');
                    out.push('l');
                    out.push('}');
                    proof {
                        assert(out@ =~= resp_text(resp@));
                    }
                },
                Some(v) => {
                    let vc = string_to_chars(v.as_str());
                    push_jstr(&mut out, &vc);
                    out.push('}');
                    proof {
                        assert(out@ =~= resp_text(resp@));
                    }
                },
            }
        },
        Response::Error { message } => {
            out.push('E');
            out.push('r');
            out.push('r');
            out.push('"');
            out.push(':');
            let mc = string_to_chars(message.as_str());
            push_jstr(&mut out, &mc);
            out.push('}');
            proof {
                assert(out@ =~= resp_text(resp@));
            }
        },
    }
    out
}

/// Parses one request at `pos`; mirrors [`parse_req`].
pub fn parse_request(t: &Vec<char>, pos: usize) -> (r: Option<(Request, usize)>)
    requires
        pos <= t@.len(),
    ensures
        r is Some ==> parse_req(t@, pos as int) == Some(
            (r.unwrap().0@, r.unwrap().1 as int),
        ) && pos < r.unwrap().1 <= t@.len(),
        r is None ==> parse_req(t@, pos as int) is None,
{
    let tl = t.len();
    let go = get_open_chars();
    if match_at(t, pos, &go) {
        let p1 = pos + go.len();
        if p1 >= tl || t[p1] != '"' {
            return None;
        }
        match parse_str_body_exec(t, p1 + 1) {
            None => None,
            Some((key_chars, p2)) => {
                if tl - p2 >= 2 && t[p2] == '}' && t[p2 + 1] == '}' {
                    proof {
                        assert(t@.subrange(p2 as int, p2 as int + 2) =~= seq!['}', '}']);
                        assert(matches_at(t@, p2 as int, seq!['}', '}']));
                    }
                    Some((Request::Get { key: chars_to_string(&key_chars) }, p2 + 2))
                } else {
                    proof {
                        if matches_at(t@, p2 as int, seq!['}', '}']) {
                            assert(t@.subrange(p2 as int, p2 as int + 2)[0] == '}');
                            assert(t@.subrange(p2 as int, p2 as int + 2)[1] == '}');
                        }
                    }
                    None
                }
            },
        }
    } else {
        match parse_command(t, pos) {
            None => None,
            Some((Command::Put { key, value }, end)) => Some(
                (Request::Put { key, value }, end),
            ),
            Some((Command::Remove { key }, end)) => Some((Request::Remove { key }, end)),
        }
    }
}

/// The characters of [`ok_open`].
fn ok_open_chars() -> (r: Vec<char>)
    ensures
        r@ == ok_open(),
{
    let mut out: Vec<char> = Vec::new();
    out.push('{');
    out.push('"');
    out.push('O');
    out.push('k');
    out.push('"');
    out.push(':');
    proof {
        assert(out@ =~= ok_open());
    }
    out
}

/// The characters of [`err_open`].
fn err_open_chars() -> (r: Vec<char>)
    ensures
        r@ == err_open(),
{
    let mut out: Vec<char> = Vec::new();
    out.push('{');
    out.push('"');
    out.push('E');
    out.push('r');
    out.push('r');
    out.push('"');
    out.push(':');
    proof {
        assert(out@ =~= err_open());
    }
    out
}

/// The characters of [`null_close`].
fn null_close_chars() -> (r: Vec<char>)
    ensures
        r@ == null_close(),
{
    let mut out: Vec<char> = Vec::new();
    out.push('n');
    out.push('u');
    out.push('l');
    out.push('l');
    out.push('}');
    proof {
        assert(out@ =~= null_close());
    }
    out
}

/// Parses one response at `pos`; mirrors [`parse_resp`].
pub fn parse_response(t: &Vec<char>, pos: usize) -> (r: Option<(Response, usize)>)
    requires
        pos <= t@.len(),
    ensures
        r is Some ==> parse_resp(t@, pos as int) == Some(
            (r.unwrap().0@, r.unwrap().1 as int),
        ) && pos < r.unwrap().1 <= t@.len(),
        r is None ==> parse_resp(t@, pos as int) is None,
{
    let tl = t.len();
    let oo = ok_open_chars();
    let eo = err_open_chars();
    if match_at(t, pos, &oo) {
        let p1 = pos + oo.len();
        let nc = null_close_chars();
        if match_at(t, p1, &nc) {
            return Some((Response::Value { value: None }, p1 + nc.len()));
        }
        if p1 >= tl || t[p1] != '"' {
            return None;
        }
        match parse_str_body_exec(t, p1 + 1) {
            None => None,
            Some((vc, p2)) => {
                if tl - p2 >= 1 && t[p2] == '}' {
                    proof {
                        assert(t@.subrange(p2 as int, p2 as int + 1) =~= seq!['}']);
                        assert(matches_at(t@, p2 as int, seq!['}']));
                    }
                    Some((Response::Value { value: Some(chars_to_string(&vc)) }, p2 + 1))
                } else {
                    proof {
                        if matches_at(t@, p2 as int, seq!['}']) {
                            assert(t@.subrange(p2 as int, p2 as int + 1)[0] == '}');
                        }
                    }
                    None
                }
            },
        }
    } else if match_at(t, pos, &eo) {
        let p1 = pos + eo.len();
        if p1 >= tl || t[p1] != '"' {
            return None;
        }
        match parse_str_body_exec(t, p1 + 1) {
            None => None,
            Some((mc, p2)) => {
                if tl - p2 >= 1 && t[p2] == '}' {
                    proof {
                        assert(t@.subrange(p2 as int, p2 as int + 1) =~= seq!['}']);
                        assert(matches_at(t@, p2 as int, seq!['}']));
                    }
                    Some((Response::Error { message: chars_to_string(&mc) }, p2 + 1))
                } else {
                    proof {
                        if matches_at(t@, p2 as int, seq!['}']) {
                            assert(t@.subrange(p2 as int, p2 as int + 1)[0] == '}');
                        }
                    }
                    None
                }
            },
        }
    } else {
        None
    }
}

/// Whether the store has room left to append this request's record, which
/// only the machine's counter width limits.
pub open spec fn req_room(store: KvStore, rv: ReqV) -> bool {
    match rv {
        ReqV::Get { key } => true,
        ReqV::Put { key, value } => rec_text_room(store, Rec::Put { key, value }),
        ReqV::Remove { key } => rec_text_room(store, Rec::Remove { key }),
    }
}

/// Serves one request against the engine: `get` reads through the index,
/// `set` and `remove` write; an engine failure becomes its message in an
/// error response, a missing key on `get` a `null` value. The write effect,
/// where one happened, is handed back for the shell to mirror onto disk.
pub fn handle_request(store: &mut KvStore, req: Request) -> (r: (Response, Option<WriteEffect>))
    requires
        old(store).wf(),
        req_room(*old(store), req@),
    ensures
        final(store).wf(),
        match req@ {
            ReqV::Get { key } => *final(store) == *old(store) && (match r.0 {
                Response::Value { value } => (value is Some <==> old(store).kv().dom().contains(
                    key,
                )) && (value is Some ==> value.unwrap()@ == old(store).kv()[key]),
                Response::Error { .. } => false,
            }) && r.1 is None,
            ReqV::Put { key, value } => final(store).kv() == old(store).kv().insert(key, value)
                && r.0 == (Response::Value { value: None::<String> }) && r.1 is Some,
            ReqV::Remove { key } => {
                &&& old(store).kv().dom().contains(key) ==> final(store).kv() == old(
                    store,
                ).kv().remove(key) && r.0 == (Response::Value { value: None::<String> })
                    && r.1 is Some
                &&& !old(store).kv().dom().contains(key) ==> *final(store) == *old(store) && (
                match r.0 {
                    Response::Error { message } => message@ == "Key not found"@,
                    Response::Value { .. } => false,
                }) && r.1 is None
            },
        },
{
    match req {
        Request::Get { key } => {
            match store.get(key) {
                Ok(v) => (Response::Value { value: v }, None),
                Err(e) => (Response::Error { message: e.message() }, None),
            }
        },
        Request::Put { key, value } => {
            let eff = store.set(key, value);
            (Response::Value { value: None }, Some(eff))
        },
        Request::Remove { key } => {
            match store.remove(key) {
                Ok(eff) => (Response::Value { value: None }, Some(eff)),
                Err(e) => (Response::Error { message: e.message() }, None),
            }
        },
    }
}

/// What a `get` response means to the client: the value, or the server's
/// error.
pub fn read_get_response(resp: Response) -> (r: Result<Option<String>, KvError>)
    ensures
        match resp@ {
            RespV::Value { value: Some(v) } => r is Ok && r.unwrap() is Some && r.unwrap().unwrap()@
                == v,
            RespV::Value { value: None } => r == Ok::<Option<String>, KvError>(None),
            RespV::Error { message } => r is Err && (match r.unwrap_err() {
                KvError::StringError(m) => m@ == message,
                _ => false,
            }),
        },
{
    match resp {
        Response::Value { value } => Ok(value),
        Response::Error { message } => Err(KvError::StringError(message)),
    }
}

/// What a `set` or `remove` response means to the client: success, or the
/// server's error.
pub fn read_unit_response(resp: Response) -> (r: Result<(), KvError>)
    ensures
        match resp@ {
            RespV::Value { .. } => r is Ok,
            RespV::Error { message } => r is Err && (match r.unwrap_err() {
                KvError::StringError(m) => m@ == message,
                _ => false,
            }),
        },
{
    match resp {
        Response::Value { value: _ } => Ok(()),
        Response::Error { message } => Err(KvError::StringError(message)),
    }
}

/// The line the client prints for a `get`: the value, or `Key not found`
/// for a missing key, each followed by a newline.
pub fn get_output(v: &Option<String>) -> (r: String)
    ensures
        match v {
            Some(s) => r@ == s@ + seq!['\n'],
            None => r@ == "Key not found\n"@,
        },
{
    match v {
        Some(s) => {
            let mut cs = string_to_chars(s.as_str());
            cs.push('\n');
            proof {
                assert(cs@ =~= s@ + seq!['\n']);
            }
            chars_to_string(&cs)
        },
        None => "Key not found\n".to_owned(),
    }
}

} // verus!
