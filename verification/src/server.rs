//! The daemon's side of the channel: answering one frame at a time.
//!
//! Each accepted connection loops: read one frame, decode the request,
//! answer it against the tracker, write one frame back. A malformed payload
//! is fatal to its own connection and to nothing else; a well-formed but
//! unknown request is answered with `Response::NoData`.

use vstd::prelude::*;
use vstd::pervasive::unreached;
use crate::protocol::{
    decode_request,
    encode_request,
    encode_response,
    parse_req,
    req_enc,
    resp_enc,
    resp_v,
    ParsedRequest,
    Request,
    RespV,
    Response,
};
use crate::tracker::ActiveSetTracker;
use crate::wire::{encode_frame, frame_bytes, MAX_FRAME_LEN};

verus! {

/// The command-line surface of the daemon, as plain data.
#[derive(Debug)]
pub struct Cli {
    pub config: String,
    pub socket: String,
}

/// The response owed to a parsed request against the given stored players:
/// the players for `GetLastActive`, no data for anything unknown.
pub open spec fn response_v_for(p: ParsedRequest, players: Seq<Seq<char>>) -> RespV {
    match p {
        ParsedRequest::Known(Request::GetLastActive) => RespV::VPlayers(players),
        _ => RespV::VNone,
    }
}

/// Answer one decoded request from the tracker's current state.
pub fn handle_request(request: &Request, tracker: &ActiveSetTracker) -> (r: Response)
    ensures
        resp_v(r) == response_v_for(ParsedRequest::Known(*request), tracker.active()),
{
    match request {
        Request::GetLastActive => Response::Players(tracker.snapshot()),
    }
}

/// What the connection does after one frame: send these bytes and await the
/// next frame, or drop the connection.
pub enum ConnectionStep {
    Reply(Vec<u8>),
    Close,
}

/// One exchange of the per-connection protocol loop: decode the frame's
/// payload, answer it, and frame the answer. A malformed payload closes the
/// connection; so does an answer too large for one frame.
pub fn connection_step(payload: &Vec<u8>, tracker: &ActiveSetTracker) -> (r: ConnectionStep)
    ensures
        ({
            let p = parse_req(payload@);
            let v = response_v_for(p, tracker.active());
            if p is Malformed {
                r is Close
            } else if resp_enc(v).len() <= MAX_FRAME_LEN {
                r matches ConnectionStep::Reply(b) && b@ == frame_bytes(resp_enc(v))
            } else {
                r is Close
            }
        }),
{
    let response = match decode_request(payload) {
        ParsedRequest::Malformed => {
            return ConnectionStep::Close;
        },
        ParsedRequest::Known(request) => handle_request(&request, tracker),
        ParsedRequest::Unknown => Response::NoData,
    };
    let bytes = encode_response(&response);
    match encode_frame(&bytes) {
        Ok(f) => ConnectionStep::Reply(f),
        Err(_) => ConnectionStep::Close,
    }
}

/// The framed bytes of one request, for a client to send.
pub fn request_frame(request: &Request) -> (r: Vec<u8>)
    ensures
        r@ == frame_bytes(req_enc(*request)),
{
    let bytes = encode_request(request);
    match encode_frame(&bytes) {
        Ok(f) => f,
        Err(_) => unreached(),
    }
}

} // verus!
