use sark::h2::client::{Close, Codec, ConnState, Handler, Session};
use sark::h2::conn;
use sark::h2::conn::{Conn, Event};
use sark::h2::server::app::{dispatch_resumed, dispatch_started, Action};
use sark::h2::server::config::Limits;
use sark::h2::server::connection::{ConnectionState, Dispatch, EventSink};
use sark::h2::server::driver::{Driver, Serving};
use sark::h2::server::tasks::{Polled, Resumed, Scheduler, Started};
use sark::h2::server::{
    Body, Config, Request, Response, SyncApp, SyncConnState, SyncHandler,
};
use sark::h2::{ClientRole, ConnError, ErrorCode, Header, ServerRole, StreamId};

fn sid(raw: u32) -> StreamId {
    StreamId::new(raw).expect("in range")
}

fn limits() -> Limits {
    Limits {
        max_request_body_bytes: 8,
        max_connection_body_bytes: 16,
        max_outbound_bytes: 1 << 20,
    }
}

fn config() -> Config {
    Config {
        max_connections: 1,
        max_connections_per_ip: 1,
        listen_backlog: 1,
        max_handler_tasks: 0,
        max_request_body_bytes: 8,
        max_connection_body_bytes: 16,
        max_outbound_bytes: 64,
        socket_receive_buffer_bytes: None,
        socket_send_buffer_bytes: None,
        tcp_fast_open_backlog: None,
        receive_buffer_bytes: 1,
        receive_buffer_count: 1,
    }
}

struct Echo {
    seen: Vec<(u32, Vec<u8>, Vec<u8>)>,
    resets: Vec<u32>,
}

impl EventSink for Echo {
    fn request(&mut self, stream_id: StreamId, request: Request) -> Dispatch {
        let path = request.path().unwrap_or(b"").to_vec();
        self.seen.push((stream_id.as_u32(), path.clone(), request.body.clone()));
        if path == b"/later" {
            return Dispatch::Pending;
        }
        if path == b"/never" {
            return Dispatch::Reset(ErrorCode::RefusedStream);
        }
        Dispatch::Response(Response::text(Body::from_shared(request.body)))
    }

    fn reset(&mut self, stream_id: StreamId) {
        self.resets.push(stream_id.as_u32());
    }
}

fn request(path: &'static [u8]) -> [Header<'static>; 3] {
    [
        Header::new(b":method", b"POST"),
        Header::new(b":scheme", b"http"),
        Header::new(b":path", path),
    ]
}

fn exchange(client: &mut Conn<ClientRole>, state: &mut ConnectionState, sink: &mut Echo) {
    let bytes = client.outbound().to_vec();
    client.drain_outbound(bytes.len());
    {
        let mut serving = Serving { state, sink, limits: limits() };
        let taken = Driver::new(&mut serving).ingest(&bytes);
        assert!(taken.is_ok());
    }
    let mut out = Vec::new();
    while state.connection_mut().drain_into(4096, &mut out) > 0 {}
    client.ingest(&out).unwrap();
}

fn open() -> (Conn<ClientRole>, ConnectionState, Echo) {
    let mut client = Conn::<ClientRole>::new();
    let mut state = ConnectionState::new(Conn::<ServerRole>::new());
    let mut sink = Echo { seen: Vec::new(), resets: Vec::new() };
    exchange(&mut client, &mut state, &mut sink);
    while client.poll_event().is_some() {}
    (client, state, sink)
}

#[test]
fn a_body_in_pieces_is_handed_on_whole() {
    let (mut client, mut state, mut sink) = open();
    let id = client.start_request(&request(b"/echo"), false).unwrap();
    client.send_data(id, b"abc", false).unwrap();
    exchange(&mut client, &mut state, &mut sink);
    assert!(sink.seen.is_empty());
    client.send_data(id, b"de", true).unwrap();
    exchange(&mut client, &mut state, &mut sink);
    assert_eq!(sink.seen, vec![(1, b"/echo".to_vec(), b"abcde".to_vec())]);
    let mut body = Vec::new();
    while let Some(event) = client.poll_event() {
        if let Event::Data { data, .. } = event {
            body.extend_from_slice(data.as_slice());
        }
    }
    assert_eq!(body, b"abcde".to_vec());
}

#[test]
fn a_body_that_is_too_long_is_reset() {
    let (mut client, mut state, mut sink) = open();
    let id = client.start_request(&request(b"/echo"), false).unwrap();
    client.send_data(id, b"123456789", true).unwrap();
    exchange(&mut client, &mut state, &mut sink);
    assert!(sink.seen.is_empty());
    let mut error = None;
    while let Some(event) = client.poll_event() {
        if let Event::StreamReset { error: code, .. } = event {
            error = Some(code);
        }
    }
    assert_eq!(error, Some(ErrorCode::EnhanceYourCalm));
}

#[test]
fn an_answer_may_come_later_or_not_at_all() {
    let (mut client, mut state, mut sink) = open();
    let later = client.start_request(&request(b"/later"), true).unwrap();
    let never = client.start_request(&request(b"/never"), true).unwrap();
    exchange(&mut client, &mut state, &mut sink);
    let mut reset = Vec::new();
    while let Some(event) = client.poll_event() {
        if let Event::StreamReset { stream_id, error } = event {
            reset.push((stream_id, error));
        }
    }
    assert_eq!(reset, vec![(never, ErrorCode::RefusedStream)]);
    state.begin_response(later, Response::text(Body::from_static(b"ok")), limits());
    exchange(&mut client, &mut state, &mut sink);
    let mut body = Vec::new();
    while let Some(event) = client.poll_event() {
        if let Event::Data { data, end_stream, .. } = event {
            assert!(end_stream);
            body.extend_from_slice(data.as_slice());
        }
    }
    assert_eq!(body, b"ok".to_vec());
}

#[test]
fn a_reset_reaches_the_sink() {
    let (mut client, mut state, mut sink) = open();
    let id = client.start_request(&request(b"/later"), true).unwrap();
    exchange(&mut client, &mut state, &mut sink);
    client.reset_stream(id, ErrorCode::Cancel).unwrap();
    exchange(&mut client, &mut state, &mut sink);
    assert_eq!(sink.resets, vec![1]);
}

#[test]
fn configurations_are_checked() {
    let good = config();
    assert!(good.validate(false).is_ok());
    assert_eq!(
        good.validate(true).err(),
        Some("max_handler_tasks must be greater than zero")
    );
    assert_eq!(good.limits().max_outbound_bytes, 64);
}

#[test]
fn handlers_keep_slots_until_they_answer() {
    let mut tasks = Scheduler::with_capacity(2);
    let mut head = None;
    assert!(tasks.is_idle());
    let pending = tasks.start(&mut head, 0, 7, sid(1), 100, true, Polled::Pending);
    assert_eq!(pending, Started::Pending);
    assert_eq!(head, Some(0));
    // The same stream, and a slot that is taken.
    assert!(!tasks.register_task(&mut head, 1, 7, sid(1), 101));
    assert!(!tasks.register_task(&mut head, 0, 7, sid(3), 101));
    assert!(tasks.register_task(&mut head, 1, 7, sid(3), 101));
    assert_eq!(head, Some(1));
    assert!(tasks.is_current(0, 100, 7));
    assert!(!tasks.is_current(0, 101, 7));
    assert!(!tasks.is_current(0, 100, 8));
    assert!(matches!(tasks.resume(&mut head, 0, 99, 7, Polled::Ready), Resumed::Stale));
    assert!(matches!(tasks.resume(&mut head, 0, 100, 7, Polled::Pending), Resumed::Pending));
    assert!(matches!(tasks.resume(&mut head, 0, 100, 7, Polled::Ready), Resumed::Ready(id) if id == sid(1)));
    assert_eq!(head, Some(1));
    assert_eq!(tasks.cancel(&mut head, 7, sid(3)), Some(1));
    assert_eq!(tasks.cancel(&mut head, 7, sid(3)), None);
    assert_eq!(head, None);
    assert!(tasks.is_idle());
}

#[test]
fn closing_a_connection_ends_its_handlers_only() {
    let mut tasks = Scheduler::with_capacity(4);
    let (mut a, mut b) = (None, None);
    assert!(tasks.register_task(&mut a, 0, 1, sid(1), 10));
    assert!(tasks.register_task(&mut b, 1, 2, sid(1), 11));
    assert!(tasks.register_task(&mut a, 2, 1, sid(3), 12));
    assert!(tasks.register_task(&mut a, 3, 1, sid(5), 13));
    assert_eq!(tasks.release_task(&mut a, 2), Some(sid(3)));
    assert_eq!(tasks.release_task(&mut a, 2), None);
    assert_eq!(tasks.close(&mut a, 1), vec![3, 0]);
    assert_eq!(a, None);
    assert!(tasks.is_current(1, 11, 2));
    assert_eq!(b, Some(1));
    assert_eq!(tasks.release_task(&mut b, 1), Some(sid(1)));
    assert!(tasks.is_idle());
}

#[test]
fn failed_starts_reset_their_stream() {
    let mut tasks = Scheduler::with_capacity(1);
    let mut head = None;
    assert_eq!(tasks.start(&mut head, 0, 1, sid(1), 1, true, Polled::Ready), Started::Ready);
    assert_eq!(tasks.start(&mut head, 0, 1, sid(1), 1, true, Polled::Gone), Started::Failed);
    assert_eq!(tasks.start(&mut head, 0, 1, sid(1), 1, false, Polled::Pending), Started::Failed);
    assert_eq!(tasks.start(&mut head, 9, 1, sid(1), 1, true, Polled::Pending), Started::Refused);
    assert_eq!(Started::Refused.error(), Some(ErrorCode::RefusedStream));
    assert_eq!(Started::Failed.error(), Some(ErrorCode::InternalError));
    assert_eq!(Started::Ready.error(), None);
    assert!(tasks.is_idle());
}

struct Log(Vec<&'static str>);

impl Handler for Log {
    fn event(&mut self, event: Event, _conn: &mut Conn<ClientRole>) {
        self.0.push(match event {
            Event::Headers { .. } => "headers",
            Event::Data { .. } => "data",
            _ => "other",
        });
    }
}

#[test]
fn a_client_hands_its_events_on_in_order() {
    let mut server = Conn::<ServerRole>::new();
    let mut state = ConnState { conn: Conn::<ClientRole>::new() };
    let mut session = Session::new(Log(Vec::new()));
    let id = state.conn.start_request(&request(b"/log"), true).unwrap();
    let bytes = Session::<Log>::outbound(&state);
    Session::<Log>::drained(&mut state, bytes.len());
    server.ingest(&bytes).unwrap();
    server.send_response(id, &[Header::new(b":status", b"200")], false).unwrap();
    server.send_data(id, b"x", true).unwrap();
    let (head, n) = Codec.parse(server.outbound().to_vec()).unwrap();
    server.drain_outbound(n);
    session.response(head, &mut state).unwrap();
    let log = session.handler().0.iter().filter(|name| **name != "other").count();
    assert_eq!(log, 2);
    assert_eq!(session.handler().0.last(), Some(&"data"));
    assert!(Codec.parse(Vec::new()).is_none());
    assert_eq!(state.wants_close(), Close::Keep);
    state.conn.goaway(ErrorCode::NoError, b"").unwrap();
    assert_eq!(state.wants_close(), Close::Reconnect);
}

struct Shout;

impl SyncHandler for Shout {
    fn request(&self, request: Request) -> Response {
        Response::text(Body::from_shared(request.body.to_ascii_uppercase()))
    }
}

fn carry(client: &mut Conn<ClientRole>, app: &SyncApp<'_, Shout>, slot: &mut SyncConnState) -> Action {
    let bytes = client.outbound().to_vec();
    client.drain_outbound(bytes.len());
    let action = app.chunk(slot, &bytes);
    let mut out = Vec::new();
    while slot.connection().connection_mut().drain_into(4096, &mut out) > 0 {}
    client.ingest(&out).unwrap();
    action
}

#[test]
fn a_server_answers_at_once() {
    let handler = Shout;
    let app = SyncApp::new(&handler, config());
    let mut slot = SyncConnState::default();
    let mut client = Conn::<ClientRole>::new();
    assert_eq!(
        carry(&mut client, &app, &mut slot),
        Action::Flush { close_after: false }
    );
    let id = client.start_request(&request(b"/shout"), false).unwrap();
    client.send_data(id, b"abc", true).unwrap();
    carry(&mut client, &app, &mut slot);
    let mut body = Vec::new();
    while let Some(event) = client.poll_event() {
        if let Event::Data { data, .. } = event {
            body.extend_from_slice(data.as_slice());
        }
    }
    assert_eq!(body, b"ABC".to_vec());
    assert_eq!(app.send(&mut slot), Action::Nothing);
    app.close(&mut slot);
}

#[test]
fn a_failure_is_told_before_the_connection_closes() {
    let handler = Shout;
    let app = SyncApp::new(&handler, config());
    let mut slot = SyncConnState::default();
    assert_eq!(
        app.chunk(&mut slot, b"GET / HTTP/1.1\r\nhost: somewhere\r\n\r\n"),
        Action::Flush { close_after: true }
    );
    assert!(slot.connection().connection().goaway_sent());
    assert_eq!(app.chunk(&mut slot, b"more"), Action::Nothing);
}

#[test]
fn handlers_that_ran_decide_about_their_streams() {
    let response = || Some(Response::text(Body::from_static(b"ok")));
    assert!(matches!(
        dispatch_started(Started::Ready, response()),
        Dispatch::Response(_)
    ));
    assert!(matches!(dispatch_started(Started::Pending, None), Dispatch::Pending));
    assert!(matches!(
        dispatch_started(Started::Refused, None),
        Dispatch::Reset(ErrorCode::RefusedStream)
    ));
    assert!(matches!(
        dispatch_started(Started::Failed, None),
        Dispatch::Reset(ErrorCode::InternalError)
    ));
    assert!(matches!(
        dispatch_resumed(Resumed::Ready(sid(3)), response()),
        Some((id, Dispatch::Response(_))) if id == sid(3)
    ));
    assert!(matches!(
        dispatch_resumed(Resumed::Failed(sid(5)), None),
        Some((id, Dispatch::Reset(ErrorCode::InternalError))) if id == sid(5)
    ));
    assert!(dispatch_resumed(Resumed::Pending, None).is_none());
    assert!(dispatch_resumed(Resumed::Stale, None).is_none());
}

fn with_trailers(limit: u32) -> (Vec<(u32, Vec<u8>, Vec<u8>)>, Option<ErrorCode>) {
    let mut client = Conn::<ClientRole>::new();
    let mut config = sark::h2::config::Config::default();
    config.local_settings.max_header_list_size = Some(limit);
    let Ok(conn) = Conn::<ServerRole>::with_config(config) else {
        panic!("the limit is good");
    };
    let mut state = ConnectionState::new(conn);
    let mut sink = Echo { seen: Vec::new(), resets: Vec::new() };
    exchange(&mut client, &mut state, &mut sink);
    while client.poll_event().is_some() {}
    let id = client.start_request(&request(b"/echo"), false).unwrap();
    client.send_data(id, b"abc", false).unwrap();
    client.send_trailers(id, &[Header::new(b"x-sum", b"5")]).unwrap();
    exchange(&mut client, &mut state, &mut sink);
    let mut error = None;
    while let Some(event) = client.poll_event() {
        if let Event::StreamReset { error: code, .. } = event {
            error = Some(code);
        }
    }
    (sink.seen, error)
}

#[test]
fn trailers_complete_a_request_within_the_limit_for_fields() {
    // The fields count for 43, 43, 42 and 38.
    let (seen, error) = with_trailers(166);
    assert_eq!(seen, vec![(1, b"/echo".to_vec(), b"abc".to_vec())]);
    assert_eq!(error, None);
    let (seen, error) = with_trailers(165);
    assert!(seen.is_empty());
    assert_eq!(error, Some(ErrorCode::EnhanceYourCalm));
}

struct Keeper(Vec<Request>);

impl EventSink for Keeper {
    fn request(&mut self, _stream_id: StreamId, request: Request) -> Dispatch {
        self.0.push(request);
        Dispatch::Pending
    }

    fn reset(&mut self, _stream_id: StreamId) {}
}

#[test]
fn a_request_holds_its_place_while_it_is_kept() {
    let mut client = Conn::<ClientRole>::new();
    let small = conn::Config { header_capacity: 1, ..conn::Config::default() };
    let mut state = ConnectionState::new(Conn::<ServerRole>::with_config(small).unwrap());
    let mut sink = Keeper(Vec::new());
    client.start_request(&request(b"/one"), true).unwrap();
    client.start_request(&request(b"/two"), true).unwrap();
    let bytes = client.outbound().to_vec();
    {
        let mut serving = Serving { state: &mut state, sink: &mut sink, limits: limits() };
        let taken = Driver::new(&mut serving).ingest(&bytes);
        assert_eq!(taken, Err(ConnError::Overload));
    }
    assert_eq!(sink.0.len(), 1);
    assert_eq!(sink.0[0].path(), Some(&b"/one"[..]));
    assert_eq!(sink.0[0].header(b":method"), Some(&b"POST"[..]));
    sink.0.clear();
    let mut serving = Serving { state: &mut state, sink: &mut sink, limits: limits() };
    assert_eq!(Driver::new(&mut serving).ingest(&[]), Ok(()));
    assert_eq!(sink.0.len(), 1);
    assert_eq!(sink.0[0].path(), Some(&b"/two"[..]));
}
