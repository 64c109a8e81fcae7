use dataplane::envelope::{
    RequestHeader, decode_frame, decode_response, encode_frame, peek_correlation_id,
};
use dataplane::mux::{DispatchOutcome, Multiplexer, SerialOutcome, StreamPoll};

fn delivered(outcome: DispatchOutcome) -> bool {
    matches!(outcome, DispatchOutcome::Delivered)
}

fn dropped(outcome: DispatchOutcome) -> bool {
    matches!(outcome, DispatchOutcome::Dropped)
}

fn response_bytes(outcome: SerialOutcome) -> Vec<u8> {
    match outcome {
        SerialOutcome::Response(bytes) => bytes,
        _ => panic!("expected a response"),
    }
}

fn frame_bytes(poll: StreamPoll) -> Vec<u8> {
    match poll {
        StreamPoll::Frame(bytes) => bytes,
        _ => panic!("expected a frame"),
    }
}

/// Two serial exchanges in flight: the one whose response arrives
/// first completes first, regardless of which was opened first.
#[test]
fn fast_exchange_completes_before_slow_one() {
    let mut mux = Multiplexer::new();
    let slow = mux.open_serial();
    let fast = mux.open_serial();
    assert_eq!(slow, 1);
    assert_eq!(fast, 2);

    // The peer answers the later request immediately.
    assert!(delivered(mux.dispatch(fast, b"hello".to_vec())));
    assert_eq!(response_bytes(mux.take_serial(fast)), b"hello".to_vec());

    // The slower answer lands afterwards and still reaches its caller.
    assert!(delivered(mux.dispatch(slow, b"slow".to_vec())));
    assert_eq!(response_bytes(mux.take_serial(slow)), b"slow".to_vec());
}

/// A stream yields the peer's responses in emission order and does not
/// end until the multiplexer goes away.
#[test]
fn stream_yields_two_statuses_in_order() {
    let mut mux = Multiplexer::new();
    let id = mux.open_queue(10);

    assert!(delivered(mux.dispatch(id, vec![4])));
    assert!(delivered(mux.dispatch(id, vec![8])));

    assert_eq!(frame_bytes(mux.pop_stream(id)), vec![4]);
    assert_eq!(frame_bytes(mux.pop_stream(id)), vec![8]);
    assert!(matches!(mux.pop_stream(id), StreamPoll::Pending));

    mux.terminate();
    assert!(matches!(mux.pop_stream(id), StreamPoll::Ended));
}

#[test]
fn stream_yields_three_frames_in_order() {
    let mut mux = Multiplexer::new();
    let id = mux.open_queue(8);
    assert!(delivered(mux.dispatch(id, b"F1".to_vec())));
    assert!(delivered(mux.dispatch(id, b"F2".to_vec())));
    assert!(delivered(mux.dispatch(id, b"F3".to_vec())));
    assert_eq!(frame_bytes(mux.pop_stream(id)), b"F1".to_vec());
    assert_eq!(frame_bytes(mux.pop_stream(id)), b"F2".to_vec());
    assert_eq!(frame_bytes(mux.pop_stream(id)), b"F3".to_vec());
}

/// After a timeout removes a serial waiter, a late response is dropped
/// without touching anything else, and the next exchange on the same
/// multiplexer succeeds.
#[test]
fn timeout_removes_waiter_and_next_exchange_succeeds() {
    let mut mux = Multiplexer::new();
    let stale = mux.open_serial();

    // The wait elapsed: the caller gives up and unregisters.
    assert!(matches!(mux.take_serial(stale), SerialOutcome::Closed));

    // The peer's late answer finds no waiter and is discarded.
    assert!(dropped(mux.dispatch(stale, b"late".to_vec())));

    // A fresh exchange works, under a fresh id.
    let next = mux.open_serial();
    assert_ne!(next, stale);
    assert!(delivered(mux.dispatch(next, b"ok".to_vec())));
    assert_eq!(response_bytes(mux.take_serial(next)), b"ok".to_vec());
}

/// Dropping the multiplexer while a stream is idle ends the stream.
#[test]
fn terminate_ends_idle_stream() {
    let mut mux = Multiplexer::new();
    let id = mux.open_queue(4);
    mux.terminate();
    assert!(matches!(mux.pop_stream(id), StreamPoll::Ended));
}

/// A dropped stream handle is swept out at the next registration; late
/// frames for it are discarded while other exchanges are untouched.
#[test]
fn dropped_stream_is_swept_and_late_frames_discarded() {
    let mut mux = Multiplexer::new();
    let gone = mux.open_queue(2);
    mux.close_stream(gone);

    let live = mux.open_queue(2);
    assert!(dropped(mux.dispatch(gone, vec![1])));
    assert!(delivered(mux.dispatch(live, vec![2])));
    assert_eq!(frame_bytes(mux.pop_stream(live)), vec![2]);
}

/// A full queue hands the frame back instead of growing without bound.
#[test]
fn full_queue_pushes_back() {
    let mut mux = Multiplexer::new();
    let id = mux.open_queue(1);
    assert!(delivered(mux.dispatch(id, vec![1])));
    let back = match mux.dispatch(id, vec![2]) {
        DispatchOutcome::Full(frame) => frame,
        _ => panic!("expected the queue to be full"),
    };
    assert_eq!(back, vec![2]);
    assert_eq!(frame_bytes(mux.pop_stream(id)), vec![1]);
    assert!(delivered(mux.dispatch(id, back)));
    assert_eq!(frame_bytes(mux.pop_stream(id)), vec![2]);
}

/// The read half closing sends the end-of-stream marker: the stream
/// observes that the peer closed.
#[test]
fn eof_reaches_stream_as_peer_closure() {
    let mut mux = Multiplexer::new();
    let id = mux.open_queue(4);
    assert!(delivered(mux.dispatch(id, vec![7])));
    mux.dispatch_eof();
    assert_eq!(frame_bytes(mux.pop_stream(id)), vec![7]);
    assert!(matches!(mux.pop_stream(id), StreamPoll::Closed));
}

/// A serial slot accepts exactly one response; a second one for the
/// same id is dropped.
#[test]
fn serial_slot_takes_only_one_response() {
    let mut mux = Multiplexer::new();
    let id = mux.open_serial();
    assert!(delivered(mux.dispatch(id, vec![1])));
    assert!(dropped(mux.dispatch(id, vec![2])));
    assert_eq!(response_bytes(mux.take_serial(id)), vec![1]);
}

/// A request travels as one frame; the response's correlation id is
/// read from the head without consuming the body.
#[test]
fn framed_request_and_response_round_trip() {
    let mut header = RequestHeader::new_request(1002, 7);
    assert_eq!(header.correlation_id(), 0);
    header.set_correlation_id(42);
    assert_eq!(header.api_key(), 1002);
    assert_eq!(header.api_version(), 7);

    let mut body: Vec<u8> = Vec::new();
    header.encode(&mut body, 0);
    assert_eq!(body.len(), header.write_size(0));
    body.extend_from_slice(b"payload");

    let mut wire: Vec<u8> = Vec::new();
    encode_frame(&mut wire, &body);
    assert_eq!(wire.len(), body.len() + 4);

    let (frame_body, consumed) = decode_frame(&wire, 0, wire.len()).expect("frame");
    assert_eq!(consumed, wire.len());
    assert_eq!(frame_body, body);

    let (decoded, header_len) =
        RequestHeader::decode(&frame_body, 0, frame_body.len(), 0).expect("header");
    assert_eq!(decoded.correlation_id(), 42);
    assert_eq!(decoded.api_key(), 1002);
    assert_eq!(&frame_body[header_len..], b"payload");

    let response = decoded.new_response(&b"pong".to_vec());
    assert_eq!(peek_correlation_id(&response), Ok(42));
    // The body, correlation id included, stays whole for the decoder.
    assert_eq!(response.len(), 8);
    let (corr, pong) = decode_response(&response).expect("response");
    assert_eq!(corr, 42);
    assert_eq!(pong, b"pong".to_vec());
}
