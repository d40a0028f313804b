//! The request/response messages and their byte encoding.
//!
//! A frame payload carries exactly one message in a tagged, length-prefixed
//! form: a request is a single tag byte; a response is a tag byte followed,
//! for the `Players` variant, by a count and by each identity as its UTF-8
//! length and bytes. Parsing is strict: a payload is accepted exactly when
//! it is the canonical encoding of some message, so garbage is always a
//! `ProtocolError` and never a silently substituted value. An unknown
//! request tag is well-formed but unknown: the server answers it with
//! `Response::NoData` rather than dropping the connection.

use vstd::prelude::*;
use vstd::bytes::{
    lemma_auto_spec_u64_to_from_le_bytes,
    spec_u64_from_le_bytes,
    spec_u64_to_le_bytes,
    u64_from_le_bytes,
    u64_to_le_bytes,
};
use vstd::slice::{slice_subrange, slice_to_vec};
use vstd::string::StrSliceExecFns;
use vstd::utf8::{
    decode_utf8,
    decode_utf8_encode_utf8,
    encode_utf8,
    encode_utf8_decode_utf8,
    encode_utf8_valid_utf8,
    valid_utf8,
};

verus! {

/// A query from a client to the daemon.
#[derive(Debug, Clone, PartialEq, Eq, Structural)]
pub enum Request {
    GetLastActive,
}

/// An answer from the daemon: no data, or the last active player identities.
#[derive(Debug, Clone, PartialEq)]
pub enum Response {
    NoData,
    Players(Vec<String>),
}

/// A payload that is not a well-formed message; fatal to its connection.
#[derive(Debug, Clone, Copy, PartialEq, Eq, Structural)]
pub struct ProtocolError;

pub const TAG_REQUEST_GET_LAST_ACTIVE: u8 = 0;

pub const TAG_RESPONSE_NONE: u8 = 0;

pub const TAG_RESPONSE_PLAYERS: u8 = 1;

/// A response abstracted to the character sequences it carries.
pub enum RespV {
    VNone,
    VPlayers(Seq<Seq<char>>),
}

/// The abstraction of a concrete response value.
pub open spec fn resp_v(r: Response) -> RespV {
    match r {
        Response::NoData => RespV::VNone,
        Response::Players(v) => RespV::VPlayers(v.deep_view()),
    }
}

/// An abstract response small enough to put on the wire.
pub open spec fn resp_wf(a: RespV) -> bool {
    match a {
        RespV::VNone => true,
        RespV::VPlayers(l) => l.len() <= u64::MAX && forall|i: int|
            0 <= i < l.len() ==> (#[trigger] encode_utf8(l[i])).len() <= u64::MAX,
    }
}

/// One identity on the wire: its UTF-8 length, then its UTF-8 bytes.
pub open spec fn str_chunk(s: Seq<char>) -> Seq<u8> {
    spec_u64_to_le_bytes(encode_utf8(s).len() as u64) + encode_utf8(s)
}

/// A run of identities on the wire, one chunk each, in order.
pub open spec fn strs_chunk(l: Seq<Seq<char>>) -> Seq<u8>
    decreases l.len(),
{
    if l.len() == 0 {
        Seq::empty()
    } else {
        str_chunk(l[0]) + strs_chunk(l.drop_first())
    }
}

/// The canonical payload of a request.
pub open spec fn req_enc(r: Request) -> Seq<u8> {
    seq![TAG_REQUEST_GET_LAST_ACTIVE]
}

/// The canonical payload of a response.
pub open spec fn resp_enc(a: RespV) -> Seq<u8> {
    match a {
        RespV::VNone => seq![TAG_RESPONSE_NONE],
        RespV::VPlayers(l) => seq![TAG_RESPONSE_PLAYERS] + spec_u64_to_le_bytes(l.len() as u64)
            + strs_chunk(l),
    }
}

/// What a request payload holds: a known request, a well-formed payload of
/// an unknown request kind, or a malformed payload.
#[derive(Debug, Clone, PartialEq, Eq, Structural)]
pub enum ParsedRequest {
    Known(Request),
    Unknown,
    Malformed,
}

/// Parse a request payload: exactly one tag byte.
pub open spec fn parse_req(b: Seq<u8>) -> ParsedRequest {
    if b.len() != 1 {
        ParsedRequest::Malformed
    } else if b[0] == TAG_REQUEST_GET_LAST_ACTIVE {
        ParsedRequest::Known(Request::GetLastActive)
    } else {
        ParsedRequest::Unknown
    }
}

/// Parse `k` identity chunks off the front of `b`; yields the identities
/// and the remaining bytes, or nothing if `b` does not start with `k`
/// well-formed chunks of valid UTF-8.
pub open spec fn parse_strs(b: Seq<u8>, k: nat) -> Option<(Seq<Seq<char>>, Seq<u8>)>
    decreases k,
{
    if k == 0 {
        Some((Seq::empty(), b))
    } else if b.len() < 8 {
        None
    } else {
        let n = spec_u64_from_le_bytes(b.subrange(0, 8)) as int;
        if b.len() - 8 < n {
            None
        } else {
            let chunk = b.subrange(8, 8 + n);
            if !valid_utf8(chunk) {
                None
            } else {
                match parse_strs(b.skip(8 + n), (k - 1) as nat) {
                    Option::None => None,
                    Option::Some(p) => Some((seq![decode_utf8(chunk)] + p.0, p.1)),
                }
            }
        }
    }
}

/// Parse a response payload; strict, with nothing left over.
pub open spec fn parse_resp(b: Seq<u8>) -> Option<RespV> {
    if b.len() == 0 {
        None
    } else if b[0] == TAG_RESPONSE_NONE {
        if b.len() == 1 {
            Some(RespV::VNone)
        } else {
            None
        }
    } else if b[0] == TAG_RESPONSE_PLAYERS {
        if b.len() < 9 {
            None
        } else {
            let k = spec_u64_from_le_bytes(b.subrange(1, 9));
            match parse_strs(b.skip(9), k as nat) {
                Option::Some(p) => if p.1.len() == 0 {
                    Some(RespV::VPlayers(p.0))
                } else {
                    None
                },
                Option::None => None,
            }
        }
    } else {
        None
    }
}

proof fn lemma_strs_chunk_push(l: Seq<Seq<char>>, x: Seq<char>)
    ensures
        strs_chunk(l.push(x)) == strs_chunk(l) + str_chunk(x),
    decreases l.len(),
{
    if l.len() == 0 {
        assert(l.push(x).drop_first() =~= Seq::<Seq<char>>::empty());
        assert(l.push(x)[0] == x);
        assert(strs_chunk(l.push(x).drop_first()) == Seq::<u8>::empty());
        assert(strs_chunk(l) == Seq::<u8>::empty());
        assert(strs_chunk(l.push(x)) =~= strs_chunk(l) + str_chunk(x));
    } else {
        assert(l.push(x).drop_first() =~= l.drop_first().push(x));
        lemma_strs_chunk_push(l.drop_first(), x);
        assert(strs_chunk(l.push(x)) =~= strs_chunk(l) + str_chunk(x));
    }
}

/// Encoding a run of identities and then parsing it back, with anything at
/// all behind it, yields exactly those identities and leaves the rest.
pub proof fn lemma_parse_strs_round_trip(l: Seq<Seq<char>>, rest: Seq<u8>)
    requires
        forall|i: int| 0 <= i < l.len() ==> (#[trigger] encode_utf8(l[i])).len() <= u64::MAX,
    ensures
        parse_strs(strs_chunk(l) + rest, l.len()) == Some((l, rest)),
    decreases l.len(),
{
    lemma_auto_spec_u64_to_from_le_bytes();
    if l.len() == 0 {
        assert(strs_chunk(l) + rest =~= rest);
    } else {
        let s = l[0];
        let sb = encode_utf8(s);
        let b = strs_chunk(l) + rest;
        assert(b =~= spec_u64_to_le_bytes(sb.len() as u64) + sb + (strs_chunk(l.drop_first())
            + rest));
        assert(b.subrange(0, 8) =~= spec_u64_to_le_bytes(sb.len() as u64));
        let n = spec_u64_from_le_bytes(b.subrange(0, 8)) as int;
        assert(n == sb.len());
        assert(b.subrange(8, 8 + n) =~= sb);
        encode_utf8_valid_utf8(s);
        encode_utf8_decode_utf8(s);
        assert(b.skip(8 + n) =~= strs_chunk(l.drop_first()) + rest);
        assert forall|i: int| 0 <= i < l.drop_first().len() implies (#[trigger] encode_utf8(
            l.drop_first()[i],
        )).len() <= u64::MAX by {
            assert(l.drop_first()[i] == l[i + 1]);
        }
        lemma_parse_strs_round_trip(l.drop_first(), rest);
        assert(seq![decode_utf8(sb)] + l.drop_first() =~= l);
    }
}

/// A run of bytes parses as `k` identities only if it is exactly their
/// encoding followed by what is left over.
pub proof fn lemma_parse_strs_sound(b: Seq<u8>, k: nat)
    ensures
        parse_strs(b, k) matches Some(p) ==> {
            &&& p.0.len() == k
            &&& forall|i: int|
                0 <= i < p.0.len() ==> (#[trigger] encode_utf8(p.0[i])).len() <= u64::MAX
            &&& b == strs_chunk(p.0) + p.1
        },
    decreases k,
{
    lemma_auto_spec_u64_to_from_le_bytes();
    if k == 0 {
        if parse_strs(b, k) is Some {
            let p = parse_strs(b, k)->Some_0;
            assert(b =~= strs_chunk(p.0) + p.1);
        }
    } else if b.len() >= 8 {
        let n = spec_u64_from_le_bytes(b.subrange(0, 8)) as int;
        if b.len() - 8 >= n {
            let chunk = b.subrange(8, 8 + n);
            if valid_utf8(chunk) {
                let tail = parse_strs(b.skip(8 + n), (k - 1) as nat);
                lemma_parse_strs_sound(b.skip(8 + n), (k - 1) as nat);
                if tail is Some {
                    let pt = tail->Some_0;
                    let s0 = decode_utf8(chunk);
                    decode_utf8_encode_utf8(chunk);
                    assert(encode_utf8(s0) == chunk);
                    assert(spec_u64_to_le_bytes(spec_u64_from_le_bytes(b.subrange(0, 8)))
                        == b.subrange(0, 8));
                    assert(str_chunk(s0) =~= b.subrange(0, 8 + n));
                    let l = seq![s0] + pt.0;
                    assert(l.drop_first() =~= pt.0);
                    assert(strs_chunk(l) == str_chunk(s0) + strs_chunk(pt.0));
                    assert(b =~= str_chunk(s0) + (strs_chunk(pt.0) + pt.1));
                    assert(b =~= strs_chunk(l) + pt.1);
                    assert forall|i: int| 0 <= i < l.len() implies (#[trigger] encode_utf8(
                        l[i],
                    )).len() <= u64::MAX by {
                        if i == 0 {
                            assert(encode_utf8(l[0]) == chunk);
                        } else {
                            assert(l[i] == pt.0[i - 1]);
                        }
                    }
                }
            }
        }
    }
}

/// Round trip for responses: parsing the encoding of any well-formed
/// response value yields that value.
pub proof fn lemma_response_round_trip(a: RespV)
    requires
        resp_wf(a),
    ensures
        parse_resp(resp_enc(a)) == Some(a),
{
    lemma_auto_spec_u64_to_from_le_bytes();
    match a {
        RespV::VNone => {
            let b = resp_enc(a);
            assert(b.len() == 1 && b[0] == TAG_RESPONSE_NONE);
        },
        RespV::VPlayers(l) => {
            let b = resp_enc(a);
            assert(b[0] == TAG_RESPONSE_PLAYERS);
            assert(b.len() >= 9);
            assert(b.subrange(1, 9) =~= spec_u64_to_le_bytes(l.len() as u64));
            let k = spec_u64_from_le_bytes(b.subrange(1, 9));
            assert(k == l.len());
            assert(b.skip(9) =~= strs_chunk(l) + Seq::<u8>::empty());
            lemma_parse_strs_round_trip(l, Seq::empty());
        },
    }
}

/// Soundness for responses: a payload parses only if it is exactly the
/// encoding of the parsed value, so garbage never parses.
pub proof fn lemma_response_parse_sound(b: Seq<u8>)
    ensures
        parse_resp(b) matches Some(a) ==> resp_wf(a) && b == resp_enc(a),
{
    lemma_auto_spec_u64_to_from_le_bytes();
    if b.len() == 0 {
    } else if b[0] == TAG_RESPONSE_NONE {
        if b.len() == 1 {
            assert(b =~= resp_enc(RespV::VNone));
        }
    } else if b[0] == TAG_RESPONSE_PLAYERS {
        if b.len() >= 9 {
            let k = spec_u64_from_le_bytes(b.subrange(1, 9));
            lemma_parse_strs_sound(b.skip(9), k as nat);
            match parse_strs(b.skip(9), k as nat) {
                Option::Some(p) => {
                    if p.1.len() == 0 {
                        let l = p.0;
                        assert(l.len() == k);
                        assert(spec_u64_to_le_bytes(spec_u64_from_le_bytes(b.subrange(1, 9)))
                            == b.subrange(1, 9));
                        assert(b.skip(9) =~= strs_chunk(l) + p.1);
                        assert(strs_chunk(l) =~= strs_chunk(l) + p.1);
                        assert(b =~= seq![TAG_RESPONSE_PLAYERS] + spec_u64_to_le_bytes(
                            l.len() as u64,
                        ) + strs_chunk(l));
                    }
                },
                Option::None => {},
            }
        }
    }
}

/// Round trip and soundness for requests: the encoding of a request parses
/// back to it, and a payload parses as a known request only if it is that
/// request's encoding.
pub proof fn lemma_request_round_trip(r: Request, b: Seq<u8>)
    ensures
        parse_req(req_enc(r)) == ParsedRequest::Known(r),
        parse_req(b) matches ParsedRequest::Known(q) ==> b == req_enc(q),
{
    if parse_req(b) is Known {
        assert(b =~= seq![TAG_REQUEST_GET_LAST_ACTIVE]);
    }
}

/// Relies on String::from_utf8: it succeeds exactly on valid UTF-8 input,
/// and the string it returns is the one whose UTF-8 encoding is that input.
#[verifier::external_body]
fn string_from_utf8(bytes: Vec<u8>) -> (r: Option<String>)
    ensures
        r is Some <==> valid_utf8(bytes@),
        r matches Some(s) ==> encode_utf8(s@) == bytes@,
{
    String::from_utf8(bytes).ok()
}

/// Serialize a request.
pub fn encode_request(req: &Request) -> (r: Vec<u8>)
    ensures
        r@ == req_enc(*req),
{
    let mut out: Vec<u8> = Vec::new();
    out.push(TAG_REQUEST_GET_LAST_ACTIVE);
    proof {
        assert(out@ =~= req_enc(*req));
    }
    out
}

/// Deserialize a request payload.
pub fn decode_request(payload: &Vec<u8>) -> (r: ParsedRequest)
    ensures
        r == parse_req(payload@),
{
    if payload.len() != 1 {
        ParsedRequest::Malformed
    } else if payload[0] == TAG_REQUEST_GET_LAST_ACTIVE {
        ParsedRequest::Known(Request::GetLastActive)
    } else {
        ParsedRequest::Unknown
    }
}

/// Serialize a response. Every in-memory response is small enough for the
/// wire form, and the bytes are its canonical encoding.
pub fn encode_response(resp: &Response) -> (r: Vec<u8>)
    ensures
        resp_wf(resp_v(*resp)),
        r@ == resp_enc(resp_v(*resp)),
{
    match resp {
        Response::NoData => {
            let mut out: Vec<u8> = Vec::new();
            out.push(TAG_RESPONSE_NONE);
            proof {
                assert(out@ =~= resp_enc(resp_v(*resp)));
            }
            out
        },
        Response::Players(list) => {
            let ghost l = list.deep_view();
            let mut out: Vec<u8> = Vec::new();
            out.push(TAG_RESPONSE_PLAYERS);
            let k: u64 = list.len() as u64;
            let mut kb = u64_to_le_bytes(k);
            out.append(&mut kb);
            proof {
                assert(l.len() == list@.len());
                assert(out@ =~= seq![TAG_RESPONSE_PLAYERS] + spec_u64_to_le_bytes(
                    l.len() as u64,
                ) + strs_chunk(l.subrange(0, 0)));
            }
            let n = list.len();
            let mut i: usize = 0;
            while i < n
                invariant
                    n == list@.len(),
                    i <= n,
                    l == list.deep_view(),
                    out@ == seq![TAG_RESPONSE_PLAYERS] + spec_u64_to_le_bytes(l.len() as u64)
                        + strs_chunk(l.subrange(0, i as int)),
                    forall|j: int|
                        0 <= j < i ==> (#[trigger] encode_utf8(l[j])).len() <= u64::MAX,
                decreases n - i,
            {
                let ghost pre = out@;
                let s: &String = &list[i];
                let mut sb: Vec<u8> = s.as_str().as_bytes_vec();
                proof {
                    assert(sb@ == encode_utf8(l[i as int]));
                }
                let ghost sbs = sb@;
                let slen: u64 = sb.len() as u64;
                let mut lb = u64_to_le_bytes(slen);
                out.append(&mut lb);
                out.append(&mut sb);
                proof {
                    assert(out@ =~= pre + str_chunk(l[i as int]));
                    lemma_strs_chunk_push(l.subrange(0, i as int), l[i as int]);
                    assert(l.subrange(0, i + 1) =~= l.subrange(0, i as int).push(l[i as int]));
                    assert(out@ =~= seq![TAG_RESPONSE_PLAYERS] + spec_u64_to_le_bytes(
                        l.len() as u64,
                    ) + strs_chunk(l.subrange(0, i + 1)));
                }
                i = i + 1;
            }
            proof {
                assert(l.subrange(0, n as int) =~= l);
            }
            out
        },
    }
}

/// Deserialize a response payload, strictly.
pub fn decode_response(payload: &Vec<u8>) -> (r: Result<Response, ProtocolError>)
    ensures
        match parse_resp(payload@) {
            Option::Some(a) => r matches Ok(v) && resp_v(v) == a,
            Option::None => r is Err,
        },
{
    let plen = payload.len();
    if plen == 0 {
        return Err(ProtocolError);
    }
    let tag = payload[0];
    if tag == TAG_RESPONSE_NONE {
        if plen == 1 {
            return Ok(Response::NoData);
        } else {
            return Err(ProtocolError);
        }
    }
    if tag != TAG_RESPONSE_PLAYERS {
        return Err(ProtocolError);
    }
    if plen < 9 {
        return Err(ProtocolError);
    }
    let ks = slice_subrange(payload.as_slice(), 1, 9);
    let k: u64 = u64_from_le_bytes(ks);
    proof {
        assert(ks@ =~= payload@.subrange(1, 9));
    }
    let mut acc: Vec<String> = Vec::new();
    let mut pos: usize = 9;
    let mut j: u64 = 0;
    while j < k
        invariant
            plen == payload@.len(),
            9 <= pos <= plen,
            j <= k,
            k == spec_u64_from_le_bytes(payload@.subrange(1, 9)),
            ({
                let full = parse_strs(payload@.skip(9), k as nat);
                let sub = parse_strs(payload@.skip(pos as int), (k - j) as nat);
                match sub {
                    Option::None => full is None,
                    Option::Some(p) => full == Some::<(Seq<Seq<char>>, Seq<u8>)>(
                        (acc.deep_view() + p.0, p.1),
                    ),
                }
            }),
        decreases k - j,
    {
        let ghost cur = payload@.skip(pos as int);
        if plen - pos < 8 {
            assert(parse_strs(cur, (k - j) as nat) is None);
            return Err(ProtocolError);
        }
        let ns = slice_subrange(payload.as_slice(), pos, pos + 8);
        let n64 = u64_from_le_bytes(ns);
        proof {
            assert(ns@ =~= cur.subrange(0, 8));
        }
        if ((plen - pos - 8) as u64) < n64 {
            assert(parse_strs(cur, (k - j) as nat) is None);
            return Err(ProtocolError);
        }
        let n = n64 as usize;
        let chunk_slice = slice_subrange(payload.as_slice(), pos + 8, pos + 8 + n);
        let chunk: Vec<u8> = slice_to_vec(chunk_slice);
        proof {
            assert(chunk@ =~= cur.subrange(8, 8 + n as int));
        }
        let ghost chunkseq = chunk@;
        match string_from_utf8(chunk) {
            Option::None => {
                assert(parse_strs(cur, (k - j) as nat) is None);
                return Err(ProtocolError);
            },
            Option::Some(s) => {
                let ghost pre_acc = acc.deep_view();
                proof {
                    encode_utf8_decode_utf8(s@);
                    assert(s@ == decode_utf8(chunkseq));
                }
                acc.push(s);
                proof {
                    assert(acc.deep_view() =~= pre_acc.push(decode_utf8(chunkseq)));
                    assert(cur.skip(8 + n as int) =~= payload@.skip(pos + 8 + n as int));
                    let sub = parse_strs(cur, (k - j) as nat);
                    let subnext = parse_strs(
                        payload@.skip(pos + 8 + n as int),
                        (k - j - 1) as nat,
                    );
                    match subnext {
                        Option::None => {
                            assert(sub is None);
                        },
                        Option::Some(p) => {
                            assert(sub == Some::<(Seq<Seq<char>>, Seq<u8>)>(
                                (seq![decode_utf8(chunkseq)] + p.0, p.1),
                            ));
                            assert(pre_acc + (seq![decode_utf8(chunkseq)] + p.0) =~= acc.deep_view()
                                + p.0);
                        },
                    }
                }
                pos = pos + 8 + n;
                j = j + 1;
            },
        }
    }
    proof {
        assert(parse_strs(payload@.skip(pos as int), 0) == Some::<(Seq<Seq<char>>, Seq<u8>)>(
            (Seq::empty(), payload@.skip(pos as int)),
        ));
        assert(acc.deep_view() + Seq::<Seq<char>>::empty() =~= acc.deep_view());
    }
    if pos != plen {
        proof {
            assert(payload@.skip(pos as int).len() > 0);
        }
        return Err(ProtocolError);
    }
    proof {
        assert(payload@.skip(pos as int).len() == 0);
    }
    Ok(Response::Players(acc))
}

} // verus!
