//! The on-disk log record and its self-delimiting byte encoding.
//!
//! A segment file is a plain concatenation of encoded records; a
//! decoder finds the end of each record from the bytes alone.

use vstd::prelude::*;

use crate::codec::lemma_join;
use crate::codec::lemma_qstr_complete;
use crate::codec::lemma_qstr_bounds;
use crate::codec::lemma_qstr_prefix;
use crate::codec::lemma_qstr_shift;
use crate::codec::lemma_suffix_step;
use crate::codec::lemma_split_concat;
use crate::codec::lemma_starts_with_bytes;
use crate::codec::has_prefix;
use crate::codec::parse_qstr;
use crate::codec::parse_quoted;
use crate::codec::quoted;
use crate::codec::starts_with;
use crate::codec::string_from_utf8;
use crate::codec::string_to_bytes;
use crate::codec::write_quoted;
use crate::errors::KVStoreError;

verus! {

broadcast use vstd::utf8::encode_utf8_valid_utf8, vstd::utf8::decode_utf8_encode_utf8, vstd::utf8::encode_utf8_decode_utf8;

/// One log record: a key set to a value, or a key removed.
#[derive(Debug)]
pub enum Command {
    /// The key now holds this value.
    SET(String, String),
    /// The key is now absent.
    RM(String),
}

/// A record at the specification level: the UTF-8 bytes of its key and
/// of its value.
pub enum CmdRaw {
    SetR(Seq<u8>, Seq<u8>),
    RmR(Seq<u8>),
}

impl View for Command {
    type V = CmdRaw;

    open spec fn view(&self) -> CmdRaw {
        match self {
            Command::SET(k, v) => CmdRaw::SetR(
                vstd::utf8::encode_utf8(k@),
                vstd::utf8::encode_utf8(v@),
            ),
            Command::RM(k) => CmdRaw::RmR(vstd::utf8::encode_utf8(k@)),
        }
    }
}

/// Whether every payload of a raw record is valid UTF-8.
pub open spec fn cmd_utf8_ok(c: CmdRaw) -> bool {
    match c {
        CmdRaw::SetR(k, v) => vstd::utf8::valid_utf8(k) && vstd::utf8::valid_utf8(v),
        CmdRaw::RmR(k) => vstd::utf8::valid_utf8(k),
    }
}

/// The opening bytes of a `Set` record: `{"SET":[`.
pub open spec fn set_open() -> Seq<u8> {
    seq![123u8, 34u8, 83u8, 69u8, 84u8, 34u8, 58u8, 91u8]
}

/// The closing bytes of a `Set` record: `]}`.
pub open spec fn set_close() -> Seq<u8> {
    seq![93u8, 125u8]
}

/// The opening bytes of a `Remove` record: `{"RM":`.
pub open spec fn rm_open() -> Seq<u8> {
    seq![123u8, 34u8, 82u8, 77u8, 34u8, 58u8]
}

/// The encoding of one record as a self-delimiting JSON value.
pub open spec fn enc_cmd(c: CmdRaw) -> Seq<u8> {
    match c {
        CmdRaw::SetR(k, v) => set_open() + quoted(k) + seq![44u8] + quoted(v) + set_close(),
        CmdRaw::RmR(k) => rm_open() + quoted(k) + seq![125u8],
    }
}

/// The specification parser for one record starting at `i`.
pub open spec fn parse_cmd(b: Seq<u8>, i: int) -> Option<(CmdRaw, int)> {
    if starts_with(b, i, set_open()) {
        match parse_qstr(b, i + 8) {
            Some((k, e1)) => if e1 < b.len() && b[e1] == 44 {
                match parse_qstr(b, e1 + 1) {
                    Some((v, e2)) => if e2 + 2 <= b.len() && b[e2] == 93 && b[e2 + 1] == 125 {
                        Some((CmdRaw::SetR(k, v), e2 + 2))
                    } else {
                        None
                    },
                    None => None,
                }
            } else {
                None
            },
            None => None,
        }
    } else if starts_with(b, i, rm_open()) {
        match parse_qstr(b, i + 6) {
            Some((k, e1)) => if e1 < b.len() && b[e1] == 125 {
                Some((CmdRaw::RmR(k), e1 + 1))
            } else {
                None
            },
            None => None,
        }
    } else {
        None
    }
}

/// A successful record parse ends past where it started and within
/// the buffer.
pub proof fn lemma_cmd_bounds(b: Seq<u8>, i: int)
    requires
        parse_cmd(b, i) is Some,
    ensures
        i < parse_cmd(b, i)->Some_0.1 <= b.len(),
{
    if starts_with(b, i, set_open()) {
        lemma_qstr_bounds(b, i + 8);
        let (k, e1) = parse_qstr(b, i + 8)->Some_0;
        lemma_qstr_bounds(b, e1 + 1);
    } else if starts_with(b, i, rm_open()) {
        lemma_qstr_bounds(b, i + 6);
    } else {
        lemma_qstr_bounds(b, i + 6);
    }
}

/// Wherever the encoding of a record sits in a buffer, the record
/// parser finds exactly that record, ending exactly at its last byte.
pub proof fn lemma_cmd_complete(b: Seq<u8>, i: int, c: CmdRaw, e: int)
    requires
        0 <= i <= e,
        e <= b.len(),
        b.subrange(i, e) == enc_cmd(c),
    ensures
        parse_cmd(b, i) == Some((c, e)),
{
    match c {
        CmdRaw::SetR(k, v) => {
            let r1 = quoted(k) + (seq![44u8] + (quoted(v) + set_close()));
            assert(enc_cmd(c) =~= set_open() + r1);
            lemma_split_concat(b, i, e, set_open(), r1);
            let m1 = i + 8;
            assert(starts_with(b, i, set_open()));
            let r2 = seq![44u8] + (quoted(v) + set_close());
            assert(r1 =~= quoted(k) + r2);
            lemma_split_concat(b, m1, e, quoted(k), r2);
            let e1 = m1 + quoted(k).len() as int;
            lemma_qstr_complete(b, m1, k, e1);
            let r3 = quoted(v) + set_close();
            assert(r2 =~= seq![44u8] + r3);
            lemma_split_concat(b, e1, e, seq![44u8], r3);
            assert(b[e1] == 44) by {
                assert(b.subrange(e1, e1 + 1)[0] == b[e1]);
            }
            let m2 = e1 + 1;
            lemma_split_concat(b, m2, e, quoted(v), set_close());
            let e2 = m2 + quoted(v).len() as int;
            lemma_qstr_complete(b, m2, v, e2);
            assert(b[e2] == 93 && b[e2 + 1] == 125) by {
                assert(b.subrange(e2, e)[0] == b[e2]);
                assert(b.subrange(e2, e)[1] == b[e2 + 1]);
            }
            assert(parse_cmd(b, i) == Some((CmdRaw::SetR(k, v), e2 + 2)));
        },
        CmdRaw::RmR(k) => {
            let r1 = quoted(k) + seq![125u8];
            assert(enc_cmd(c) =~= rm_open() + r1);
            lemma_split_concat(b, i, e, rm_open(), r1);
            let m1 = i + 6;
            assert(starts_with(b, i, rm_open()));
            if starts_with(b, i, set_open()) {
                lemma_starts_with_bytes(b, i, set_open());
                lemma_starts_with_bytes(b, i, rm_open());
                assert(b[i + 2] == 83 && b[i + 2] == 82);
                assert(false);
            }
            lemma_split_concat(b, m1, e, quoted(k), seq![125u8]);
            let e1 = m1 + quoted(k).len() as int;
            lemma_qstr_complete(b, m1, k, e1);
            assert(b[e1] == 125) by {
                assert(b.subrange(e1, e)[0] == b[e1]);
            }
            assert(parse_cmd(b, i) == Some((CmdRaw::RmR(k), e1 + 1)));
        },
    }
}

/// `starts_with` depends only on the suffix from its position.
proof fn lemma_starts_with_shift(b1: Seq<u8>, i1: int, b2: Seq<u8>, i2: int, p: Seq<u8>)
    requires
        0 <= i1 <= b1.len(),
        0 <= i2 <= b2.len(),
        b1.subrange(i1, b1.len() as int) == b2.subrange(i2, b2.len() as int),
    ensures
        starts_with(b1, i1, p) == starts_with(b2, i2, p),
{
    assert(b1.len() - i1 == b2.len() - i2) by {
        assert(b1.subrange(i1, b1.len() as int).len() == b2.subrange(i2, b2.len() as int).len());
        assert(b1.subrange(i1, b1.len() as int).len() == b1.len() - i1);
        assert(b2.subrange(i2, b2.len() as int).len() == b2.len() - i2);
    }
    if starts_with(b1, i1, p) {
        lemma_starts_with_bytes(b1, i1, p);
        assert forall|t: int| 0 <= t < p.len() implies b2.subrange(i2, i2 + p.len() as int)[t]
            == p[t] by {
            assert(b1.subrange(i1, b1.len() as int)[t] == b1[i1 + t]);
            assert(b2.subrange(i2, b2.len() as int)[t] == b2[i2 + t]);
            assert(b2.subrange(i2, i2 + p.len() as int)[t] == b2[i2 + t]);
        }
        assert(b2.subrange(i2, i2 + p.len() as int) =~= p);
    }
    if starts_with(b2, i2, p) {
        lemma_starts_with_bytes(b2, i2, p);
        assert forall|t: int| 0 <= t < p.len() implies b1.subrange(i1, i1 + p.len() as int)[t]
            == p[t] by {
            assert(b1.subrange(i1, b1.len() as int)[t] == b1[i1 + t]);
            assert(b2.subrange(i2, b2.len() as int)[t] == b2[i2 + t]);
            assert(b1.subrange(i1, i1 + p.len() as int)[t] == b1[i1 + t]);
        }
        assert(b1.subrange(i1, i1 + p.len() as int) =~= p);
    }
}

/// The record parser reads nothing before its start position: over
/// equal suffixes it finds the same record, ending at the
/// corresponding place.
#[verifier::rlimit(60)]
pub proof fn lemma_cmd_shift(b1: Seq<u8>, i1: int, b2: Seq<u8>, i2: int)
    requires
        0 <= i1 <= b1.len(),
        0 <= i2 <= b2.len(),
        b1.subrange(i1, b1.len() as int) == b2.subrange(i2, b2.len() as int),
    ensures
        parse_cmd(b1, i1) is Some ==> parse_cmd(b2, i2) == Some(
            (parse_cmd(b1, i1)->Some_0.0, parse_cmd(b1, i1)->Some_0.1 - i1 + i2),
        ),
        parse_cmd(b1, i1) is None ==> parse_cmd(b2, i2) is None,
{
    let d = i2 - i1;
    assert(b1.len() - i1 == b2.len() - i2) by {
        assert(b1.subrange(i1, b1.len() as int).len() == b2.subrange(i2, b2.len() as int).len());
        assert(b1.subrange(i1, b1.len() as int).len() == b1.len() - i1);
        assert(b2.subrange(i2, b2.len() as int).len() == b2.len() - i2);
    }
    lemma_starts_with_shift(b1, i1, b2, i2, set_open());
    lemma_starts_with_shift(b1, i1, b2, i2, rm_open());
    if starts_with(b1, i1, set_open()) {
        lemma_suffix_step(b1, i1, b2, i2, 8);
        lemma_qstr_shift(b1, i1 + 8, b2, i2 + 8);
        match parse_qstr(b1, i1 + 8) {
            Some((k, e1)) => {
                lemma_qstr_bounds(b1, i1 + 8);
                if e1 < b1.len() {
                    assert(b1[e1] == b2[e1 + d]) by {
                        assert(b1.subrange(i1, b1.len() as int)[e1 - i1] == b1[e1]);
                        assert(b2.subrange(i2, b2.len() as int)[e1 - i1] == b2[i2 + (e1 - i1)]);
                    }
                }
                if e1 < b1.len() && b1[e1] == 44 {
                    lemma_suffix_step(b1, i1, b2, i2, e1 + 1 - i1);
                    lemma_qstr_shift(b1, e1 + 1, b2, e1 + d + 1);
                    match parse_qstr(b1, e1 + 1) {
                        Some((v, e2)) => {
                            lemma_qstr_bounds(b1, e1 + 1);
                            if e2 < b1.len() {
                                assert(b1[e2] == b2[e2 + d]) by {
                                    assert(b1.subrange(i1, b1.len() as int)[e2 - i1] == b1[e2]);
                                    assert(b2.subrange(i2, b2.len() as int)[e2 - i1] == b2[i2 + (e2
                                        - i1)]);
                                }
                            }
                            if e2 + 1 < b1.len() {
                                assert(b1[e2 + 1] == b2[e2 + d + 1]) by {
                                    assert(b1.subrange(i1, b1.len() as int)[e2 + 1 - i1] == b1[e2
                                        + 1]);
                                    assert(b2.subrange(i2, b2.len() as int)[e2 + 1 - i1] == b2[i2
                                        + (e2 + 1 - i1)]);
                                }
                            }
                        },
                        None => {},
                    }
                }
            },
            None => {},
        }
    } else if starts_with(b1, i1, rm_open()) {
        lemma_suffix_step(b1, i1, b2, i2, 6);
        lemma_qstr_shift(b1, i1 + 6, b2, i2 + 6);
        match parse_qstr(b1, i1 + 6) {
            Some((k, e1)) => {
                lemma_qstr_bounds(b1, i1 + 6);
                if e1 < b1.len() {
                    assert(b1[e1] == b2[e1 + d]) by {
                        assert(b1.subrange(i1, b1.len() as int)[e1 - i1] == b1[e1]);
                        assert(b2.subrange(i2, b2.len() as int)[e1 - i1] == b2[i2 + (e1 - i1)]);
                    }
                }
            },
            None => {},
        }
    }
}

/// The record parser never reads past where it stops: bytes appended
/// after a successful parse change nothing, and a parse that ends
/// within a prefix already succeeds on the prefix alone.
#[verifier::rlimit(60)]
pub proof fn lemma_cmd_prefix(b: Seq<u8>, x: Seq<u8>, i: int)
    requires
        0 <= i <= b.len(),
    ensures
        parse_cmd(b, i) is Some ==> parse_cmd(b + x, i) == parse_cmd(b, i),
        ({
            let r2 = parse_cmd(b + x, i);
            (r2 is Some && r2->Some_0.1 <= b.len()) ==> parse_cmd(b, i) == r2
        }),
{
    let b2 = b + x;
    assert forall|t: int| 0 <= t < b.len() implies #[trigger] b2[t] == b[t] by {
        assert((b + x)[t] == b[t]);
    }
    if parse_cmd(b, i) is Some {
        if starts_with(b, i, set_open()) {
            lemma_starts_with_bytes(b, i, set_open());
            assert(b2.subrange(i, i + 8) =~= set_open()) by {
                assert forall|t: int| 0 <= t < 8 implies b2.subrange(i, i + 8)[t]
                    == set_open()[t] by {
                    assert(b2.subrange(i, i + 8)[t] == b2[i + t]);
                }
            }
            assert(starts_with(b2, i, set_open()));
            lemma_qstr_prefix(b, x, i + 8);
            let (k, e1) = parse_qstr(b, i + 8)->Some_0;
            lemma_qstr_bounds(b, i + 8);
            lemma_qstr_prefix(b, x, e1 + 1);
            let (v, e2) = parse_qstr(b, e1 + 1)->Some_0;
            lemma_qstr_bounds(b, e1 + 1);
        } else {
            assert(starts_with(b, i, rm_open()));
            lemma_starts_with_bytes(b, i, rm_open());
            assert(b2.subrange(i, i + 6) =~= rm_open()) by {
                assert forall|t: int| 0 <= t < 6 implies b2.subrange(i, i + 6)[t]
                    == rm_open()[t] by {
                    assert(b2.subrange(i, i + 6)[t] == b2[i + t]);
                }
            }
            assert(starts_with(b2, i, rm_open()));
            if starts_with(b2, i, set_open()) {
                lemma_starts_with_bytes(b2, i, set_open());
                assert(b2[i + 2] == 83 && b2[i + 2] == 82);
                assert(false);
            }
            lemma_qstr_prefix(b, x, i + 6);
            lemma_qstr_bounds(b, i + 6);
        }
    }
    let r2p = parse_cmd(b2, i);
    if r2p is Some && r2p->Some_0.1 <= b.len() {
        let e = r2p->Some_0.1;
        if starts_with(b2, i, set_open()) {
            lemma_qstr_bounds(b2, i + 8);
            let (k, e1) = parse_qstr(b2, i + 8)->Some_0;
            lemma_qstr_bounds(b2, e1 + 1);
            let (v, e2) = parse_qstr(b2, e1 + 1)->Some_0;
            assert(e == e2 + 2);
            lemma_starts_with_bytes(b2, i, set_open());
            assert(b.subrange(i, i + 8) =~= set_open()) by {
                assert forall|t: int| 0 <= t < 8 implies b.subrange(i, i + 8)[t]
                    == set_open()[t] by {
                    assert(b.subrange(i, i + 8)[t] == b[i + t]);
                    assert(b2[i + t] == b[i + t]);
                }
            }
            assert(starts_with(b, i, set_open()));
            lemma_qstr_prefix(b, x, i + 8);
            lemma_qstr_prefix(b, x, e1 + 1);
        } else if starts_with(b2, i, rm_open()) {
            lemma_qstr_bounds(b2, i + 6);
            let (k, e1) = parse_qstr(b2, i + 6)->Some_0;
            assert(e == e1 + 1);
            lemma_starts_with_bytes(b2, i, rm_open());
            assert(b.subrange(i, i + 6) =~= rm_open()) by {
                assert forall|t: int| 0 <= t < 6 implies b.subrange(i, i + 6)[t]
                    == rm_open()[t] by {
                    assert(b.subrange(i, i + 6)[t] == b[i + t]);
                    assert(b2[i + t] == b[i + t]);
                }
            }
            assert(starts_with(b, i, rm_open()));
            if starts_with(b, i, set_open()) {
                lemma_starts_with_bytes(b, i, set_open());
                assert(b[i + 2] == 83 && b[i + 2] == 82);
                assert(false);
            }
            lemma_qstr_prefix(b, x, i + 6);
        }
    }
}

/// A parsed record is determined by exactly the bytes it covers:
/// those bytes parse to the same record on their own.
pub proof fn lemma_cmd_restrict(b: Seq<u8>, i: int)
    requires
        0 <= i,
        parse_cmd(b, i) is Some,
    ensures
        ({
            let (c, e) = parse_cmd(b, i)->Some_0;
            parse_cmd(b.subrange(i, e), 0) == Some((c, e - i))
        }),
{
    lemma_cmd_bounds(b, i);
    let (c, e) = parse_cmd(b, i)->Some_0;
    let suf = b.subrange(i, b.len() as int);
    assert(suf.subrange(0, suf.len() as int) =~= suf);
    lemma_cmd_shift(b, i, suf, 0);
    let w = b.subrange(i, e);
    let rest = b.subrange(e, b.len() as int);
    lemma_join(b, i, e, b.len() as int);
    assert(suf == w + rest);
    lemma_cmd_prefix(w, rest, 0);
}

/// A record that parses as exactly a standalone buffer parses the
/// same wherever those bytes sit in a larger buffer.
pub proof fn lemma_cmd_embed(w: Seq<u8>, b: Seq<u8>, i: int)
    requires
        parse_cmd(w, 0) is Some,
        parse_cmd(w, 0)->Some_0.1 == w.len(),
        0 <= i,
        i + w.len() <= b.len(),
        b.subrange(i, i + w.len() as int) == w,
    ensures
        parse_cmd(b, i) == Some((parse_cmd(w, 0)->Some_0.0, i + w.len() as int)),
{
    let rest = b.subrange(i + w.len() as int, b.len() as int);
    lemma_cmd_prefix(w, rest, 0);
    lemma_join(b, i, i + w.len() as int, b.len() as int);
    assert(b.subrange(i, b.len() as int) == w + rest);
    assert((w + rest).subrange(0, (w + rest).len() as int) =~= (w + rest));
    lemma_cmd_shift(w + rest, 0, b, i);
}

pub(crate) fn lit_set_open() -> (r: Vec<u8>)
    ensures
        r@ == set_open(),
{
    let mut v: Vec<u8> = Vec::new();
    v.push(123);
    v.push(34);
    v.push(83);
    v.push(69);
    v.push(84);
    v.push(34);
    v.push(58);
    v.push(91);
    proof {
        assert(v@ =~= set_open());
    }
    v
}

pub(crate) fn lit_rm_open() -> (r: Vec<u8>)
    ensures
        r@ == rm_open(),
{
    let mut v: Vec<u8> = Vec::new();
    v.push(123);
    v.push(34);
    v.push(82);
    v.push(77);
    v.push(34);
    v.push(58);
    proof {
        assert(v@ =~= rm_open());
    }
    v
}

/// Encodes one record as its on-disk bytes.
pub fn encode_command(c: &Command) -> (r: Vec<u8>)
    ensures
        r@ == enc_cmd(c@),
{
    let mut out: Vec<u8> = Vec::new();
    match c {
        Command::SET(k, v) => {
            let mut p = lit_set_open();
            out.append(&mut p);
            proof {
                assert(out@ =~= set_open());
            }
            let kb = string_to_bytes(k);
            write_quoted(&mut out, &kb);
            out.push(44);
            let vb = string_to_bytes(v);
            write_quoted(&mut out, &vb);
            out.push(93);
            out.push(125);
            proof {
                assert(out@ =~= enc_cmd(c@));
            }
        },
        Command::RM(k) => {
            let mut p = lit_rm_open();
            out.append(&mut p);
            proof {
                assert(out@ =~= rm_open());
            }
            let kb = string_to_bytes(k);
            write_quoted(&mut out, &kb);
            out.push(125);
            proof {
                assert(out@ =~= enc_cmd(c@));
            }
        },
    }
    out
}

/// Decodes one record starting at `i`; returns the record and the
/// index just past its last byte.  The result is exactly what the
/// specification parser finds; it fails exactly when no record whose
/// key and value are strings is encoded there.
pub fn decode_command(b: &Vec<u8>, i: usize) -> (r: Result<(Command, usize), KVStoreError>)
    ensures
        r matches Ok((c, e)) ==> parse_cmd(b@, i as int) == Some((c@, e as int)) && i < e
            <= b@.len() && cmd_utf8_ok(c@),
        r is Err ==> (parse_cmd(b@, i as int) is None || !cmd_utf8_ok(
            parse_cmd(b@, i as int)->Some_0.0,
        )),
{
    let pset = lit_set_open();
    let prm = lit_rm_open();
    let n = b.len();
    if has_prefix(b, i, &pset) {
        proof {
            assert(i + 8 <= n);
        }
        match parse_quoted(b, i + 8) {
            Some((kraw, e1)) => {
                if e1 < b.len() && b[e1] == 44 {
                    match parse_quoted(b, e1 + 1) {
                        Some((vraw, e2)) => {
                            if b.len() - e2 >= 2 && b[e2] == 93 && b[e2 + 1] == 125 {
                                let ghost kr = kraw@;
                                let ghost vr = vraw@;
                                proof {
                                    assert(parse_cmd(b@, i as int) == Some(
                                        (CmdRaw::SetR(kr, vr), e2 + 2),
                                    ));
                                }
                                match string_from_utf8(kraw) {
                                    Some(ks) => match string_from_utf8(vraw) {
                                        Some(vs) => {
                                            let cmd = Command::SET(ks, vs);
                                            proof {
                                                assert(cmd@ == CmdRaw::SetR(kr, vr));
                                            }
                                            Ok((cmd, e2 + 2))
                                        },
                                        None => Err(
                                            KVStoreError::Serde(
                                                "record value is not UTF-8".to_owned(),
                                            ),
                                        ),
                                    },
                                    None => Err(
                                        KVStoreError::Serde("record key is not UTF-8".to_owned()),
                                    ),
                                }
                            } else {
                                Err(KVStoreError::Serde("record is not terminated".to_owned()))
                            }
                        },
                        None => Err(KVStoreError::Serde("malformed record value".to_owned())),
                    }
                } else {
                    Err(KVStoreError::Serde("malformed record".to_owned()))
                }
            },
            None => Err(KVStoreError::Serde("malformed record key".to_owned())),
        }
    } else if has_prefix(b, i, &prm) {
        proof {
            assert(i + 6 <= n);
        }
        match parse_quoted(b, i + 6) {
            Some((kraw, e1)) => {
                if e1 < b.len() && b[e1] == 125 {
                    let ghost kr = kraw@;
                    proof {
                        assert(parse_cmd(b@, i as int) == Some((CmdRaw::RmR(kr), e1 + 1)));
                    }
                    match string_from_utf8(kraw) {
                        Some(ks) => {
                            let cmd = Command::RM(ks);
                            proof {
                                assert(cmd@ == CmdRaw::RmR(kr));
                            }
                            Ok((cmd, e1 + 1))
                        },
                        None => Err(KVStoreError::Serde("record key is not UTF-8".to_owned())),
                    }
                } else {
                    Err(KVStoreError::Serde("record is not terminated".to_owned()))
                }
            },
            None => Err(KVStoreError::Serde("malformed record key".to_owned())),
        }
    } else {
        Err(KVStoreError::Serde("unknown record shape".to_owned()))
    }
}

} // verus!
