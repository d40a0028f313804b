use mpris_ctl::protocol::{
    decode_request, decode_response, encode_request, encode_response, ParsedRequest, Request,
    Response,
};
use mpris_ctl::wire::{encode_frame, parse_frame, FrameStep, MAX_FRAME_LEN};

#[test]
fn request_encoding_is_one_tag_byte() {
    let bytes = encode_request(&Request::GetLastActive);
    assert_eq!(bytes, vec![0u8]);
}

#[test]
fn request_round_trip() {
    let bytes = encode_request(&Request::GetLastActive);
    assert_eq!(
        decode_request(&bytes),
        ParsedRequest::Known(Request::GetLastActive)
    );
}

#[test]
fn unknown_request_tag_is_unknown_not_error() {
    assert_eq!(decode_request(&vec![9u8]), ParsedRequest::Unknown);
}

#[test]
fn malformed_request_payloads() {
    assert_eq!(decode_request(&vec![]), ParsedRequest::Malformed);
    assert_eq!(decode_request(&vec![0u8, 0u8]), ParsedRequest::Malformed);
}

#[test]
fn response_none_round_trip() {
    let bytes = encode_response(&Response::NoData);
    assert_eq!(bytes, vec![0u8]);
    assert_eq!(decode_response(&bytes), Ok(Response::NoData));
}

#[test]
fn response_players_round_trip() {
    let original = Response::Players(vec![String::from("Foo"), String::from("Bar")]);
    let bytes = encode_response(&original);
    assert_eq!(decode_response(&bytes), Ok(original));
}

#[test]
fn response_players_exact_bytes() {
    let original = Response::Players(vec![String::from("AB")]);
    let bytes = encode_response(&original);
    assert_eq!(
        bytes,
        vec![1u8, 1, 0, 0, 0, 0, 0, 0, 0, 2, 0, 0, 0, 0, 0, 0, 0, b'A', b'B']
    );
}

#[test]
fn response_with_empty_list_and_empty_identity() {
    let empty_list = Response::Players(vec![]);
    assert_eq!(
        decode_response(&encode_response(&empty_list)),
        Ok(empty_list)
    );
    let empty_name = Response::Players(vec![String::new()]);
    assert_eq!(
        decode_response(&encode_response(&empty_name)),
        Ok(empty_name)
    );
}

#[test]
fn response_with_multibyte_identities_round_trip() {
    let original = Response::Players(vec![
        String::from("Füchse"),
        String::from("プレイヤー"),
        String::from("naïve \"quoted\" name"),
    ]);
    let bytes = encode_response(&original);
    assert_eq!(decode_response(&bytes), Ok(original));
}

#[test]
fn garbage_never_decodes() {
    // Empty payload.
    assert!(decode_response(&vec![]).is_err());
    // Unknown tag.
    assert!(decode_response(&vec![2u8]).is_err());
    // A malformed three-byte payload.
    assert!(decode_response(&vec![1u8, 2, 3]).is_err());
    // Trailing byte after a complete message.
    assert!(decode_response(&vec![0u8, 0u8]).is_err());
    // Count says one identity but none follows.
    assert!(decode_response(&vec![1u8, 1, 0, 0, 0, 0, 0, 0, 0]).is_err());
    // Identity length runs past the payload.
    assert!(decode_response(&vec![1u8, 1, 0, 0, 0, 0, 0, 0, 0, 9, 0, 0, 0, 0, 0, 0, 0, b'A']).is_err());
    // Identity bytes are not UTF-8.
    assert!(decode_response(&vec![1u8, 1, 0, 0, 0, 0, 0, 0, 0, 1, 0, 0, 0, 0, 0, 0, 0, 0xff]).is_err());
}

#[test]
fn frame_round_trip() {
    let payload = vec![5u8, 6, 7];
    let framed = encode_frame(&payload).unwrap();
    assert_eq!(framed, vec![0u8, 0, 0, 3, 5, 6, 7]);
    match parse_frame(&framed) {
        FrameStep::Frame(p, consumed) => {
            assert_eq!(p, payload);
            assert_eq!(consumed, 7);
        }
        _ => panic!("expected a whole frame"),
    }
}

#[test]
fn frame_with_following_bytes_leaves_them() {
    let payload = vec![9u8];
    let mut stream = encode_frame(&payload).unwrap();
    stream.push(42);
    match parse_frame(&stream) {
        FrameStep::Frame(p, consumed) => {
            assert_eq!(p, payload);
            assert_eq!(consumed, 5);
        }
        _ => panic!("expected a whole frame"),
    }
}

#[test]
fn incomplete_frames_wait_for_more() {
    // A bare three bytes cannot even hold the length prefix.
    assert!(matches!(parse_frame(&vec![0u8, 0, 0]), FrameStep::Incomplete));
    // A prefix announcing more than has arrived.
    assert!(matches!(
        parse_frame(&vec![0u8, 0, 0, 4, 1, 2]),
        FrameStep::Incomplete
    ));
}

#[test]
fn oversized_declared_length_is_rejected() {
    assert!(matches!(
        parse_frame(&vec![0xffu8, 0xff, 0xff, 0xff]),
        FrameStep::TooLong
    ));
}

#[test]
fn oversized_payload_cannot_be_framed() {
    let payload = vec![0u8; MAX_FRAME_LEN + 1];
    assert!(encode_frame(&payload).is_err());
}
