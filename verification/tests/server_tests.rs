use mpris_ctl::protocol::{decode_response, encode_request, Request, Response};
use mpris_ctl::server::{connection_step, handle_request, request_frame, ConnectionStep};
use mpris_ctl::tracker::{ActiveSetTracker, Candidate, PlaybackStatus};
use mpris_ctl::wire::{parse_frame, FrameStep};

fn playing(name: &str) -> Candidate {
    Candidate::Session(String::from(name), PlaybackStatus::Playing)
}

fn reply_of(step: ConnectionStep) -> Response {
    match step {
        ConnectionStep::Reply(bytes) => match parse_frame(&bytes) {
            FrameStep::Frame(payload, consumed) => {
                assert_eq!(consumed, bytes.len());
                decode_response(&payload).expect("the reply must decode")
            }
            _ => panic!("the reply must be one whole frame"),
        },
        ConnectionStep::Close => panic!("expected a reply"),
    }
}

#[test]
fn get_last_active_returns_the_playing_sessions_in_order() {
    let mut tracker = ActiveSetTracker::new();
    tracker.refresh(&vec![playing("Foo"), playing("Bar")]);
    let request = encode_request(&Request::GetLastActive);
    let response = reply_of(connection_step(&request, &tracker));
    assert_eq!(
        response,
        Response::Players(vec![String::from("Foo"), String::from("Bar")])
    );
}

#[test]
fn stale_state_is_served_after_an_empty_poll() {
    let mut tracker = ActiveSetTracker::new();
    tracker.refresh(&vec![playing("Foo"), playing("Bar")]);
    tracker.refresh(&vec![Candidate::Session(
        String::from("Foo"),
        PlaybackStatus::Paused,
    )]);
    let request = encode_request(&Request::GetLastActive);
    let response = reply_of(connection_step(&request, &tracker));
    assert_eq!(
        response,
        Response::Players(vec![String::from("Foo"), String::from("Bar")])
    );
}

#[test]
fn querying_twice_with_no_refresh_is_identical() {
    let mut tracker = ActiveSetTracker::new();
    tracker.refresh(&vec![playing("Foo")]);
    let first = handle_request(&Request::GetLastActive, &tracker);
    let second = handle_request(&Request::GetLastActive, &tracker);
    assert_eq!(first, second);
    let request = encode_request(&Request::GetLastActive);
    let reply_one = match connection_step(&request, &tracker) {
        ConnectionStep::Reply(bytes) => bytes,
        ConnectionStep::Close => panic!("expected a reply"),
    };
    let reply_two = match connection_step(&request, &tracker) {
        ConnectionStep::Reply(bytes) => bytes,
        ConnectionStep::Close => panic!("expected a reply"),
    };
    assert_eq!(reply_one, reply_two);
}

#[test]
fn malformed_frame_closes_only_its_own_connection() {
    let mut tracker = ActiveSetTracker::new();
    tracker.refresh(&vec![playing("Foo"), playing("Bar")]);
    // One connection sends a malformed three-byte payload and is closed.
    let bad_payload = vec![1u8, 2, 3];
    assert!(matches!(
        connection_step(&bad_payload, &tracker),
        ConnectionStep::Close
    ));
    // A second, concurrently open connection still gets the right answer.
    let request = encode_request(&Request::GetLastActive);
    let response = reply_of(connection_step(&request, &tracker));
    assert_eq!(
        response,
        Response::Players(vec![String::from("Foo"), String::from("Bar")])
    );
}

#[test]
fn unknown_request_kind_is_answered_with_no_data() {
    let tracker = ActiveSetTracker::new();
    let unknown = vec![9u8];
    let response = reply_of(connection_step(&unknown, &tracker));
    assert_eq!(response, Response::NoData);
}

#[test]
fn request_frame_is_the_framed_request() {
    let framed = request_frame(&Request::GetLastActive);
    assert_eq!(framed, vec![0u8, 0, 0, 1, 0]);
    match parse_frame(&framed) {
        FrameStep::Frame(payload, consumed) => {
            assert_eq!(payload, encode_request(&Request::GetLastActive));
            assert_eq!(consumed, framed.len());
        }
        _ => panic!("expected one whole frame"),
    }
}
