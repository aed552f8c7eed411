use sark::h2::flow::{Error, Pair, Window};
use sark::h2::retained_segments::RetainedSegments;
use sark::h2::stream::{Event, IdGen, Side, State, TransitionError};
use sark::h2::stream_registry::{StreamClass, StreamRegistry};
use sark::h2::tuning::{Balanced, LowLatency, Throughput, Tuning};
use sark::h2::validate::Validate;
use sark::h2::{ServerRole, Stream, StreamId};

fn sid(raw: u32) -> StreamId {
    StreamId::new(raw).expect("in range")
}

#[test]
fn a_request_and_its_answer_close_a_stream() {
    let mut stream = Stream::new(sid(1));
    assert_eq!(stream.send(Event::Headers { end_stream: false }), Ok(State::Open));
    assert_eq!(stream.send(Event::Data { end_stream: true }), Ok(State::HalfClosedLocal));
    assert_eq!(
        stream.send(Event::Data { end_stream: false }),
        Err(TransitionError::StreamClosed)
    );
    assert_eq!(stream.recv(Event::Headers { end_stream: true }), Ok(State::Closed));
    assert_eq!(
        stream.recv(Event::Data { end_stream: false }),
        Err(TransitionError::StreamClosed)
    );
}

#[test]
fn data_before_headers_is_refused() {
    assert_eq!(
        State::Idle.recv(Event::Data { end_stream: false }),
        Err(TransitionError::Protocol)
    );
}

#[test]
fn both_ends_see_the_same() {
    let event = Event::Headers { end_stream: true };
    assert_eq!(State::Idle.step(event, Side::Local), Ok(State::HalfClosedLocal));
    assert_eq!(State::Idle.step(event, Side::Remote), Ok(State::HalfClosedRemote));
}

#[test]
fn a_promised_stream_is_answered_by_its_side() {
    let mut stream = Stream::reserve_local(sid(2));
    assert_eq!(stream.send(Event::Headers { end_stream: false }), Ok(State::HalfClosedRemote));
    assert_eq!(stream.send(Event::RstStream), Ok(State::Closed));
}

#[test]
fn identifiers_ascend_by_two_and_end() {
    let mut ids = IdGen::new(StreamId::first_client());
    assert_eq!(ids.next_id(), Some(sid(1)));
    assert_eq!(ids.next_id(), Some(sid(3)));
    assert_eq!(ids.peek(), Some(sid(5)));
    let mut last = IdGen::new(sid(StreamId::MAX));
    assert_eq!(last.next_id(), Some(sid(StreamId::MAX)));
    assert_eq!(last.next_id(), None);
    assert_eq!(StreamId::new(0x8000_0000), None);
    assert!(sid(2).is_server() && !sid(2).is_client());
    assert!(StreamId::connection().is_zero());
}

#[test]
fn windows_shrink_grow_and_overflow() {
    let mut window = Window::new();
    assert_eq!(window.available(), 65_535);
    assert_eq!(window.consume(65_536), Err(Error::Stalled));
    assert_eq!(window.consume(65_535), Ok(()));
    assert!(window.is_stalled());
    assert_eq!(window.increase(0), Err(Error::ZeroIncrement));
    assert_eq!(window.increase(10), Ok(()));
    assert_eq!(window.adjust_initial(-30), Ok(()));
    assert_eq!(window.available(), 0);
    assert_eq!(window.increase(25), Ok(()));
    assert_eq!(window.available(), 5);
    assert_eq!(Window::with(i32::MAX).increase(1), Err(Error::Overflow));
}

#[test]
fn two_windows_are_taken_from_at_once() {
    let mut conn = Window::with(10);
    let mut stream = Window::with(4);
    let mut pair = Pair { conn: &mut conn, stream: &mut stream };
    assert_eq!(pair.available(), 4);
    assert_eq!(pair.debit_up_to(9), 4);
    assert_eq!(pair.consume(5), Err(Error::Stalled));
    assert_eq!(pair.consume(3), Ok(()));
    assert_eq!(conn.available(), 7);
    assert_eq!(stream.available(), 1);
}

#[test]
fn input_is_kept_in_pieces() {
    let mut input = RetainedSegments::new(8, 2);
    assert!(input.push(b"abc"));
    assert!(input.push(b"de"));
    assert_eq!(input.len(), 5);
    assert_eq!(input.remaining(), 3);
    assert!(!input.push(b"fghi"));
    assert_eq!(input.retained_range(1, 3), Some(b"bcd".to_vec()));
    assert!(input.is_contiguous(0, 3));
    assert!(!input.is_contiguous(2, 2));
    assert!(input.try_consume(4));
    assert_eq!(input.retained_range(0, 1), Some(b"e".to_vec()));
    assert!(!input.try_consume(2));
}

#[test]
fn a_registry_counts_and_remembers() {
    let mut streams: StreamRegistry<ServerRole> = StreamRegistry::new(2);
    assert!(streams.insert(Stream::new(sid(1)), 5, 6).is_ok());
    assert_eq!(streams.active_count(), 1);
    assert!(streams.can_accept_peer(2));
    assert!(!streams.can_accept_peer(1));
    streams.observe_peer(sid(1));
    assert_eq!(streams.last_peer_id(), sid(1));
    streams.remove(sid(1));
    streams.mark_reset(sid(1));
    assert_eq!(streams.reset_count(), 1);
    assert_eq!(streams.classify(sid(1)), StreamClass::ClosedRst);
    assert_eq!(streams.classify(sid(3)), StreamClass::Idle);
    assert_eq!(streams.next_local_id(), Some(sid(2)));
    assert!(StreamRegistry::<ServerRole>::is_peer_initiated(sid(7)));
}

#[test]
fn profiles_are_tuned() {
    assert_eq!(Throughput::STREAM_RECV_WINDOW, 4_194_304);
    assert_eq!(Balanced::CONN_RECV_WINDOW, 8_388_608);
    assert_eq!(LowLatency::MAX_BODY_LEN, 1_048_576);
    assert_eq!(LowLatency::MAX_ACTIVE_STREAMS, 256);
}

#[test]
fn requests_are_checked_field_by_field() {
    let mut good = Validate::new(true, false);
    assert!(good.field(b":method", b"GET"));
    assert!(good.field(b":scheme", b"http"));
    assert!(good.field(b":path", b"/"));
    assert!(good.field(b"accept", b"*/*"));
    assert!(good.finish());
    let mut upper = Validate::new(true, false);
    assert!(!upper.field(b"Accept", b"x"));
    let mut late = Validate::new(true, false);
    assert!(late.field(b":method", b"GET"));
    assert!(late.field(b"accept", b"x"));
    assert!(!late.field(b":path", b"/"));
    let mut connection = Validate::new(true, false);
    assert!(!connection.field(b"connection", b"close"));
    let missing = Validate::new(true, false);
    assert!(!missing.finish());
    let mut trailing = Validate::new(true, true);
    assert!(!trailing.field(b":path", b"/"));
}
