//! The wire messages of the server and the client, with their byte
//! encodings.  A connection carries exactly one encoded `Request` and
//! one encoded `Response`, each a self-delimiting JSON value.

use vstd::prelude::*;

use crate::codec::lemma_qstr_complete;
use crate::codec::lemma_split_concat;
use crate::codec::lemma_starts_with_bytes;
use crate::codec::has_prefix;
use crate::codec::parse_qstr;
use crate::codec::parse_quoted;
use crate::codec::quoted;
use crate::codec::starts_with;
use crate::codec::string_from_utf8;
use crate::codec::string_to_bytes;
use crate::codec::write_quoted;
use crate::command::lit_rm_open;
use crate::command::lit_set_open;
use crate::command::rm_open;
use crate::command::set_close;
use crate::command::set_open;
use crate::errors::KVStoreError;

verus! {

broadcast use vstd::utf8::encode_utf8_valid_utf8, vstd::utf8::decode_utf8_encode_utf8, vstd::utf8::encode_utf8_decode_utf8;

/// One request from a client: set a key, remove a key, or read a key.
#[derive(Debug)]
pub enum Request {
    /// Set the key to the value.
    SET(String, String),
    /// Remove the key.
    RM(String),
    /// Read the key.
    GET(String),
}

/// One answer from the server: the outcome of the request, or the text
/// of the error it ran into.
#[derive(Debug)]
pub enum Response {
    /// The request succeeded; a `GET` carries the value it found.
    Okay(Option<String>),
    /// The request failed with this diagnostic.
    Error(String),
}

/// A request at the specification level: the UTF-8 bytes of its
/// payloads.
pub enum ReqRaw {
    SetQ(Seq<u8>, Seq<u8>),
    RmQ(Seq<u8>),
    GetQ(Seq<u8>),
}

/// A response at the specification level.
pub enum RespRaw {
    OkR(Option<Seq<u8>>),
    ErrR(Seq<u8>),
}

impl View for Request {
    type V = ReqRaw;

    open spec fn view(&self) -> ReqRaw {
        match self {
            Request::SET(k, v) => ReqRaw::SetQ(
                vstd::utf8::encode_utf8(k@),
                vstd::utf8::encode_utf8(v@),
            ),
            Request::RM(k) => ReqRaw::RmQ(vstd::utf8::encode_utf8(k@)),
            Request::GET(k) => ReqRaw::GetQ(vstd::utf8::encode_utf8(k@)),
        }
    }
}

impl View for Response {
    type V = RespRaw;

    open spec fn view(&self) -> RespRaw {
        match self {
            Response::Okay(v) => RespRaw::OkR(
                match v {
                    Some(s) => Some(vstd::utf8::encode_utf8(s@)),
                    None => None,
                },
            ),
            Response::Error(m) => RespRaw::ErrR(vstd::utf8::encode_utf8(m@)),
        }
    }
}

/// Whether every payload of a raw request is valid UTF-8.
pub open spec fn req_utf8_ok(q: ReqRaw) -> bool {
    match q {
        ReqRaw::SetQ(k, v) => vstd::utf8::valid_utf8(k) && vstd::utf8::valid_utf8(v),
        ReqRaw::RmQ(k) => vstd::utf8::valid_utf8(k),
        ReqRaw::GetQ(k) => vstd::utf8::valid_utf8(k),
    }
}

/// Whether every payload of a raw response is valid UTF-8.
pub open spec fn resp_utf8_ok(p: RespRaw) -> bool {
    match p {
        RespRaw::OkR(v) => v matches Some(s) ==> vstd::utf8::valid_utf8(s),
        RespRaw::ErrR(m) => vstd::utf8::valid_utf8(m),
    }
}

/// The opening bytes of a `Get` request: `{"GET":`.
pub open spec fn get_open() -> Seq<u8> {
    seq![123u8, 34u8, 71u8, 69u8, 84u8, 34u8, 58u8]
}

/// The opening bytes of a success response: `{"Ok":`.
pub open spec fn ok_open() -> Seq<u8> {
    seq![123u8, 34u8, 79u8, 107u8, 34u8, 58u8]
}

/// The opening bytes of a failure response: `{"Err":`.
pub open spec fn err_open() -> Seq<u8> {
    seq![123u8, 34u8, 69u8, 114u8, 114u8, 34u8, 58u8]
}

/// The literal `null`.
pub open spec fn null_lit() -> Seq<u8> {
    seq![110u8, 117u8, 108u8, 108u8]
}

/// The encoding of one request.
pub open spec fn enc_req(q: ReqRaw) -> Seq<u8> {
    match q {
        ReqRaw::SetQ(k, v) => set_open() + quoted(k) + seq![44u8] + quoted(v) + set_close(),
        ReqRaw::RmQ(k) => rm_open() + quoted(k) + seq![125u8],
        ReqRaw::GetQ(k) => get_open() + quoted(k) + seq![125u8],
    }
}

/// The encoding of one response.
pub open spec fn enc_resp(p: RespRaw) -> Seq<u8> {
    match p {
        RespRaw::OkR(None) => ok_open() + null_lit() + seq![125u8],
        RespRaw::OkR(Some(v)) => ok_open() + quoted(v) + seq![125u8],
        RespRaw::ErrR(m) => err_open() + quoted(m) + seq![125u8],
    }
}

/// The specification parser for one request starting at `i`.
pub open spec fn parse_req(b: Seq<u8>, i: int) -> Option<(ReqRaw, int)> {
    if starts_with(b, i, set_open()) {
        match parse_qstr(b, i + 8) {
            Some((k, e1)) => if e1 < b.len() && b[e1] == 44 {
                match parse_qstr(b, e1 + 1) {
                    Some((v, e2)) => if e2 + 2 <= b.len() && b[e2] == 93 && b[e2 + 1] == 125 {
                        Some((ReqRaw::SetQ(k, v), e2 + 2))
                    } else {
                        None
                    },
                    None => None,
                }
            } else {
                None
            },
            None => None,
        }
    } else if starts_with(b, i, rm_open()) {
        match parse_qstr(b, i + 6) {
            Some((k, e1)) => if e1 < b.len() && b[e1] == 125 {
                Some((ReqRaw::RmQ(k), e1 + 1))
            } else {
                None
            },
            None => None,
        }
    } else if starts_with(b, i, get_open()) {
        match parse_qstr(b, i + 7) {
            Some((k, e1)) => if e1 < b.len() && b[e1] == 125 {
                Some((ReqRaw::GetQ(k), e1 + 1))
            } else {
                None
            },
            None => None,
        }
    } else {
        None
    }
}

/// The specification parser for one response starting at `i`.
pub open spec fn parse_resp(b: Seq<u8>, i: int) -> Option<(RespRaw, int)> {
    if starts_with(b, i, ok_open()) {
        if starts_with(b, i + 6, null_lit()) {
            if i + 10 < b.len() && b[i + 10] == 125 {
                Some((RespRaw::OkR(None), i + 11))
            } else {
                None
            }
        } else {
            match parse_qstr(b, i + 6) {
                Some((v, e1)) => if e1 < b.len() && b[e1] == 125 {
                    Some((RespRaw::OkR(Some(v)), e1 + 1))
                } else {
                    None
                },
                None => None,
            }
        }
    } else if starts_with(b, i, err_open()) {
        match parse_qstr(b, i + 7) {
            Some((m, e1)) => if e1 < b.len() && b[e1] == 125 {
                Some((RespRaw::ErrR(m), e1 + 1))
            } else {
                None
            },
            None => None,
        }
    } else {
        None
    }
}

/// Wherever the encoding of a request sits in a buffer, the request
/// parser finds exactly that request.
pub proof fn lemma_req_complete(b: Seq<u8>, i: int, q: ReqRaw, e: int)
    requires
        0 <= i <= e,
        e <= b.len(),
        b.subrange(i, e) == enc_req(q),
    ensures
        parse_req(b, i) == Some((q, e)),
{
    match q {
        ReqRaw::SetQ(k, v) => {
            let r1 = quoted(k) + (seq![44u8] + (quoted(v) + set_close()));
            assert(enc_req(q) =~= set_open() + r1);
            lemma_split_concat(b, i, e, set_open(), r1);
            let m1 = i + 8;
            assert(starts_with(b, i, set_open()));
            let r2 = seq![44u8] + (quoted(v) + set_close());
            assert(r1 =~= quoted(k) + r2);
            lemma_split_concat(b, m1, e, quoted(k), r2);
            let e1 = m1 + quoted(k).len() as int;
            lemma_qstr_complete(b, m1, k, e1);
            let r3 = quoted(v) + set_close();
            assert(r2 =~= seq![44u8] + r3);
            lemma_split_concat(b, e1, e, seq![44u8], r3);
            assert(b[e1] == 44) by {
                assert(b.subrange(e1, e1 + 1)[0] == b[e1]);
            }
            let m2 = e1 + 1;
            lemma_split_concat(b, m2, e, quoted(v), set_close());
            let e2 = m2 + quoted(v).len() as int;
            lemma_qstr_complete(b, m2, v, e2);
            assert(b[e2] == 93 && b[e2 + 1] == 125) by {
                assert(b.subrange(e2, e)[0] == b[e2]);
                assert(b.subrange(e2, e)[1] == b[e2 + 1]);
            }
            assert(parse_req(b, i) == Some((ReqRaw::SetQ(k, v), e2 + 2)));
        },
        ReqRaw::RmQ(k) => {
            let r1 = quoted(k) + seq![125u8];
            assert(enc_req(q) =~= rm_open() + r1);
            lemma_split_concat(b, i, e, rm_open(), r1);
            let m1 = i + 6;
            assert(starts_with(b, i, rm_open()));
            lemma_starts_with_bytes(b, i, rm_open());
            if starts_with(b, i, set_open()) {
                lemma_starts_with_bytes(b, i, set_open());
                assert(b[i + 2] == 83 && b[i + 2] == 82);
                assert(false);
            }
            lemma_split_concat(b, m1, e, quoted(k), seq![125u8]);
            let e1 = m1 + quoted(k).len() as int;
            lemma_qstr_complete(b, m1, k, e1);
            assert(b[e1] == 125) by {
                assert(b.subrange(e1, e)[0] == b[e1]);
            }
            assert(parse_req(b, i) == Some((ReqRaw::RmQ(k), e1 + 1)));
        },
        ReqRaw::GetQ(k) => {
            let r1 = quoted(k) + seq![125u8];
            assert(enc_req(q) =~= get_open() + r1);
            lemma_split_concat(b, i, e, get_open(), r1);
            let m1 = i + 7;
            assert(starts_with(b, i, get_open()));
            lemma_starts_with_bytes(b, i, get_open());
            if starts_with(b, i, set_open()) {
                lemma_starts_with_bytes(b, i, set_open());
                assert(b[i + 2] == 83 && b[i + 2] == 71);
                assert(false);
            }
            if starts_with(b, i, rm_open()) {
                lemma_starts_with_bytes(b, i, rm_open());
                assert(b[i + 2] == 82 && b[i + 2] == 71);
                assert(false);
            }
            lemma_split_concat(b, m1, e, quoted(k), seq![125u8]);
            let e1 = m1 + quoted(k).len() as int;
            lemma_qstr_complete(b, m1, k, e1);
            assert(b[e1] == 125) by {
                assert(b.subrange(e1, e)[0] == b[e1]);
            }
            assert(parse_req(b, i) == Some((ReqRaw::GetQ(k), e1 + 1)));
        },
    }
}

/// Wherever the encoding of a response sits in a buffer, the response
/// parser finds exactly that response.
pub proof fn lemma_resp_complete(b: Seq<u8>, i: int, p: RespRaw, e: int)
    requires
        0 <= i <= e,
        e <= b.len(),
        b.subrange(i, e) == enc_resp(p),
    ensures
        parse_resp(b, i) == Some((p, e)),
{
    match p {
        RespRaw::OkR(None) => {
            let r1 = null_lit() + seq![125u8];
            assert(enc_resp(p) =~= ok_open() + r1);
            lemma_split_concat(b, i, e, ok_open(), r1);
            assert(starts_with(b, i, ok_open()));
            lemma_split_concat(b, i + 6, e, null_lit(), seq![125u8]);
            assert(starts_with(b, i + 6, null_lit()));
            assert(b[i + 10] == 125) by {
                assert(b.subrange(i + 10, e)[0] == b[i + 10]);
            }
            assert(parse_resp(b, i) == Some((RespRaw::OkR(None), i + 11)));
        },
        RespRaw::OkR(Some(v)) => {
            let r1 = quoted(v) + seq![125u8];
            assert(enc_resp(p) =~= ok_open() + r1);
            lemma_split_concat(b, i, e, ok_open(), r1);
            let m1 = i + 6;
            assert(starts_with(b, i, ok_open()));
            lemma_split_concat(b, m1, e, quoted(v), seq![125u8]);
            let e1 = m1 + quoted(v).len() as int;
            lemma_qstr_complete(b, m1, v, e1);
            if starts_with(b, i + 6, null_lit()) {
                lemma_starts_with_bytes(b, i + 6, null_lit());
                assert(b[m1] == 110);
                assert(b[m1] == 34) by {
                    assert(b.subrange(m1, e)[0] == b[m1]);
                }
                assert(false);
            }
            assert(b[e1] == 125) by {
                assert(b.subrange(e1, e)[0] == b[e1]);
            }
            assert(parse_resp(b, i) == Some((RespRaw::OkR(Some(v)), e1 + 1)));
        },
        RespRaw::ErrR(m) => {
            let r1 = quoted(m) + seq![125u8];
            assert(enc_resp(p) =~= err_open() + r1);
            lemma_split_concat(b, i, e, err_open(), r1);
            let m1 = i + 7;
            assert(starts_with(b, i, err_open()));
            lemma_starts_with_bytes(b, i, err_open());
            if starts_with(b, i, ok_open()) {
                lemma_starts_with_bytes(b, i, ok_open());
                assert(b[i + 2] == 79 && b[i + 2] == 69);
                assert(false);
            }
            lemma_split_concat(b, m1, e, quoted(m), seq![125u8]);
            let e1 = m1 + quoted(m).len() as int;
            lemma_qstr_complete(b, m1, m, e1);
            assert(b[e1] == 125) by {
                assert(b.subrange(e1, e)[0] == b[e1]);
            }
            assert(parse_resp(b, i) == Some((RespRaw::ErrR(m), e1 + 1)));
        },
    }
}

fn lit_get_open() -> (r: Vec<u8>)
    ensures
        r@ == get_open(),
{
    let mut v: Vec<u8> = Vec::new();
    v.push(123);
    v.push(34);
    v.push(71);
    v.push(69);
    v.push(84);
    v.push(34);
    v.push(58);
    proof {
        assert(v@ =~= get_open());
    }
    v
}

fn lit_ok_open() -> (r: Vec<u8>)
    ensures
        r@ == ok_open(),
{
    let mut v: Vec<u8> = Vec::new();
    v.push(123);
    v.push(34);
    v.push(79);
    v.push(107);
    v.push(34);
    v.push(58);
    proof {
        assert(v@ =~= ok_open());
    }
    v
}

fn lit_err_open() -> (r: Vec<u8>)
    ensures
        r@ == err_open(),
{
    let mut v: Vec<u8> = Vec::new();
    v.push(123);
    v.push(34);
    v.push(69);
    v.push(114);
    v.push(114);
    v.push(34);
    v.push(58);
    proof {
        assert(v@ =~= err_open());
    }
    v
}

fn lit_null() -> (r: Vec<u8>)
    ensures
        r@ == null_lit(),
{
    let mut v: Vec<u8> = Vec::new();
    v.push(110);
    v.push(117);
    v.push(108);
    v.push(108);
    proof {
        assert(v@ =~= null_lit());
    }
    v
}

/// Encodes one request as its wire bytes.
pub fn encode_request(q: &Request) -> (r: Vec<u8>)
    ensures
        r@ == enc_req(q@),
{
    let mut out: Vec<u8> = Vec::new();
    match q {
        Request::SET(k, v) => {
            let mut p = lit_set_open();
            out.append(&mut p);
            proof {
                assert(out@ =~= set_open());
            }
            let kb = string_to_bytes(k);
            write_quoted(&mut out, &kb);
            out.push(44);
            let vb = string_to_bytes(v);
            write_quoted(&mut out, &vb);
            out.push(93);
            out.push(125);
            proof {
                assert(out@ =~= enc_req(q@));
            }
        },
        Request::RM(k) => {
            let mut p = lit_rm_open();
            out.append(&mut p);
            proof {
                assert(out@ =~= rm_open());
            }
            let kb = string_to_bytes(k);
            write_quoted(&mut out, &kb);
            out.push(125);
            proof {
                assert(out@ =~= enc_req(q@));
            }
        },
        Request::GET(k) => {
            let mut p = lit_get_open();
            out.append(&mut p);
            proof {
                assert(out@ =~= get_open());
            }
            let kb = string_to_bytes(k);
            write_quoted(&mut out, &kb);
            out.push(125);
            proof {
                assert(out@ =~= enc_req(q@));
            }
        },
    }
    out
}

/// Encodes one response as its wire bytes.
pub fn encode_response(p: &Response) -> (r: Vec<u8>)
    ensures
        r@ == enc_resp(p@),
{
    let mut out: Vec<u8> = Vec::new();
    match p {
        Response::Okay(v) => {
            let mut pre = lit_ok_open();
            out.append(&mut pre);
            proof {
                assert(out@ =~= ok_open());
            }
            match v {
                Some(s) => {
                    let sb = string_to_bytes(s);
                    write_quoted(&mut out, &sb);
                },
                None => {
                    let mut nl = lit_null();
                    out.append(&mut nl);
                },
            }
            out.push(125);
            proof {
                assert(out@ =~= enc_resp(p@));
            }
        },
        Response::Error(m) => {
            let mut pre = lit_err_open();
            out.append(&mut pre);
            proof {
                assert(out@ =~= err_open());
            }
            let mb = string_to_bytes(m);
            write_quoted(&mut out, &mb);
            out.push(125);
            proof {
                assert(out@ =~= enc_resp(p@));
            }
        },
    }
    out
}

/// Decodes one request starting at `i`.  The result is exactly what
/// the specification parser finds; it fails exactly when no request
/// whose payloads are strings is encoded there.
pub fn decode_request(b: &Vec<u8>, i: usize) -> (r: Result<(Request, usize), KVStoreError>)
    ensures
        r matches Ok((q, e)) ==> parse_req(b@, i as int) == Some((q@, e as int)) && i < e
            <= b@.len() && req_utf8_ok(q@),
        r is Err ==> (parse_req(b@, i as int) is None || !req_utf8_ok(
            parse_req(b@, i as int)->Some_0.0,
        )),
{
    let pset = lit_set_open();
    let prm = lit_rm_open();
    let pget = lit_get_open();
    let n = b.len();
    if has_prefix(b, i, &pset) {
        proof {
            assert(i + 8 <= n);
        }
        match parse_quoted(b, i + 8) {
            Some((kraw, e1)) => {
                if e1 < b.len() && b[e1] == 44 {
                    match parse_quoted(b, e1 + 1) {
                        Some((vraw, e2)) => {
                            if b.len() - e2 >= 2 && b[e2] == 93 && b[e2 + 1] == 125 {
                                let ghost kr = kraw@;
                                let ghost vr = vraw@;
                                proof {
                                    assert(parse_req(b@, i as int) == Some(
                                        (ReqRaw::SetQ(kr, vr), e2 + 2),
                                    ));
                                }
                                match string_from_utf8(kraw) {
                                    Some(ks) => match string_from_utf8(vraw) {
                                        Some(vs) => {
                                            let req = Request::SET(ks, vs);
                                            proof {
                                                assert(req@ == ReqRaw::SetQ(kr, vr));
                                            }
                                            Ok((req, e2 + 2))
                                        },
                                        None => Err(
                                            KVStoreError::Serde(
                                                "request value is not UTF-8".to_owned(),
                                            ),
                                        ),
                                    },
                                    None => Err(
                                        KVStoreError::Serde("request key is not UTF-8".to_owned()),
                                    ),
                                }
                            } else {
                                Err(KVStoreError::Serde("request is not terminated".to_owned()))
                            }
                        },
                        None => Err(KVStoreError::Serde("malformed request value".to_owned())),
                    }
                } else {
                    Err(KVStoreError::Serde("malformed request".to_owned()))
                }
            },
            None => Err(KVStoreError::Serde("malformed request key".to_owned())),
        }
    } else if has_prefix(b, i, &prm) {
        proof {
            assert(i + 6 <= n);
        }
        match parse_quoted(b, i + 6) {
            Some((kraw, e1)) => {
                if e1 < b.len() && b[e1] == 125 {
                    let ghost kr = kraw@;
                    proof {
                        assert(parse_req(b@, i as int) == Some((ReqRaw::RmQ(kr), e1 + 1)));
                    }
                    match string_from_utf8(kraw) {
                        Some(ks) => {
                            let req = Request::RM(ks);
                            proof {
                                assert(req@ == ReqRaw::RmQ(kr));
                            }
                            Ok((req, e1 + 1))
                        },
                        None => Err(KVStoreError::Serde("request key is not UTF-8".to_owned())),
                    }
                } else {
                    Err(KVStoreError::Serde("request is not terminated".to_owned()))
                }
            },
            None => Err(KVStoreError::Serde("malformed request key".to_owned())),
        }
    } else if has_prefix(b, i, &pget) {
        proof {
            assert(i + 7 <= n);
        }
        match parse_quoted(b, i + 7) {
            Some((kraw, e1)) => {
                if e1 < b.len() && b[e1] == 125 {
                    let ghost kr = kraw@;
                    proof {
                        assert(parse_req(b@, i as int) == Some((ReqRaw::GetQ(kr), e1 + 1)));
                    }
                    match string_from_utf8(kraw) {
                        Some(ks) => {
                            let req = Request::GET(ks);
                            proof {
                                assert(req@ == ReqRaw::GetQ(kr));
                            }
                            Ok((req, e1 + 1))
                        },
                        None => Err(KVStoreError::Serde("request key is not UTF-8".to_owned())),
                    }
                } else {
                    Err(KVStoreError::Serde("request is not terminated".to_owned()))
                }
            },
            None => Err(KVStoreError::Serde("malformed request key".to_owned())),
        }
    } else {
        Err(KVStoreError::Serde("unknown request shape".to_owned()))
    }
}

/// Decodes one response starting at `i`.  The result is exactly what
/// the specification parser finds; it fails exactly when no response
/// whose payloads are strings is encoded there.
pub fn decode_response(b: &Vec<u8>, i: usize) -> (r: Result<(Response, usize), KVStoreError>)
    ensures
        r matches Ok((p, e)) ==> parse_resp(b@, i as int) == Some((p@, e as int)) && i < e
            <= b@.len() && resp_utf8_ok(p@),
        r is Err ==> (parse_resp(b@, i as int) is None || !resp_utf8_ok(
            parse_resp(b@, i as int)->Some_0.0,
        )),
{
    let pok = lit_ok_open();
    let perr = lit_err_open();
    let pnull = lit_null();
    let n = b.len();
    if has_prefix(b, i, &pok) {
        proof {
            assert(i + 6 <= n);
        }
        if has_prefix(b, i + 6, &pnull) {
            if b.len() - i > 10 && b[i + 10] == 125 {
                proof {
                    assert(parse_resp(b@, i as int) == Some((RespRaw::OkR(None), i + 11)));
                }
                Ok((Response::Okay(None), i + 11))
            } else {
                Err(KVStoreError::Serde("response is not terminated".to_owned()))
            }
        } else {
            match parse_quoted(b, i + 6) {
                Some((vraw, e1)) => {
                    if e1 < b.len() && b[e1] == 125 {
                        let ghost vr = vraw@;
                        proof {
                            assert(parse_resp(b@, i as int) == Some(
                                (RespRaw::OkR(Some(vr)), e1 + 1),
                            ));
                        }
                        match string_from_utf8(vraw) {
                            Some(vs) => {
                                let resp = Response::Okay(Some(vs));
                                proof {
                                    assert(resp@ == RespRaw::OkR(Some(vr)));
                                }
                                Ok((resp, e1 + 1))
                            },
                            None => Err(
                                KVStoreError::Serde("response value is not UTF-8".to_owned()),
                            ),
                        }
                    } else {
                        Err(KVStoreError::Serde("response is not terminated".to_owned()))
                    }
                },
                None => Err(KVStoreError::Serde("malformed response value".to_owned())),
            }
        }
    } else if has_prefix(b, i, &perr) {
        proof {
            assert(i + 7 <= n);
        }
        match parse_quoted(b, i + 7) {
            Some((mraw, e1)) => {
                if e1 < b.len() && b[e1] == 125 {
                    let ghost mr = mraw@;
                    proof {
                        assert(parse_resp(b@, i as int) == Some((RespRaw::ErrR(mr), e1 + 1)));
                    }
                    match string_from_utf8(mraw) {
                        Some(ms) => {
                            let resp = Response::Error(ms);
                            proof {
                                assert(resp@ == RespRaw::ErrR(mr));
                            }
                            Ok((resp, e1 + 1))
                        },
                        None => Err(KVStoreError::Serde("response text is not UTF-8".to_owned())),
                    }
                } else {
                    Err(KVStoreError::Serde("response is not terminated".to_owned()))
                }
            },
            None => Err(KVStoreError::Serde("malformed response text".to_owned())),
        }
    } else {
        Err(KVStoreError::Serde("unknown response shape".to_owned()))
    }
}

} // verus!
