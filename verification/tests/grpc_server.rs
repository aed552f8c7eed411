use sark::grpc::client::Config;
use sark::grpc::frame::{MessageFrame, Payload};
use sark::grpc::headers::RequestHead;
use sark::grpc::metadata::Metadata;
use sark::grpc::server::call::CallStore;
use sark::grpc::server::{
    Action, App, ConnState, Handler, Limits, Liveness, Routes, StreamRoutes, ValidatedLimits,
};
use sark::grpc::{
    Code, Codec, LiveMessage, LiveResponse, LiveStreaming, LiveStreamingHandler, LiveTrailers,
    Request, Response, Session, Status, StreamEvent, StreamId, StreamMode, StreamReply,
};
use sark::h2::hpack::OwnedHeader;

struct BytesCodec;

impl Codec for BytesCodec {
    type Encode = Vec<u8>;
    type Decode = Vec<u8>;

    fn encode(&mut self, item: &Self::Encode, out: &mut Vec<u8>) -> Result<(), Status> {
        out.extend_from_slice(item);
        Ok(())
    }

    fn decode(&mut self, bytes: &[u8]) -> Result<Self::Decode, Status> {
        if bytes == b"bad" {
            return Err(Status::new(Code::InvalidArgument, "bad"));
        }
        Ok(bytes.to_vec())
    }
}

/// Gives back what it is sent, when all of it is there.
struct Echo;

impl Handler for Echo {
    fn start(
        &mut self,
        _context: &mut (),
        _routes: &mut StreamRoutes,
        _stream_id: StreamId,
        _head: &RequestHead,
        _reply: &mut StreamReply,
    ) -> StreamMode {
        StreamMode::Buffered
    }

    fn message(
        &mut self,
        _context: &mut (),
        _routes: &mut StreamRoutes,
        _stream_id: StreamId,
        _message: MessageFrame,
        _reply: &mut StreamReply,
    ) {
    }

    fn trailers(
        &mut self,
        _context: &mut (),
        _routes: &mut StreamRoutes,
        _stream_id: StreamId,
        _trailers: Metadata,
        _reply: &mut StreamReply,
    ) {
    }

    fn request(&mut self, _context: &mut (), request: Request, response: &mut Response) {
        for message in request.messages.iter() {
            response.push_message(message.payload.as_slice().to_vec());
        }
        response.metadata = request.head.metadata;
        response.trailers = request.trailers;
        response.status = Status::new(Code::Okay, "");
    }
}

/// Gives back what it is sent, as it comes.
struct LiveEcho;

impl LiveStreamingHandler for LiveEcho {
    type Request = Vec<u8>;
    type Response = Vec<u8>;
    type Codec = BytesCodec;

    fn start(
        &mut self,
        _context: &mut (),
        _stream_id: StreamId,
        _head: &RequestHead,
    ) -> LiveResponse<Vec<u8>> {
        LiveResponse::new()
    }

    fn message(&mut self, _context: &mut (), message: LiveMessage<Vec<u8>>) -> LiveResponse<Vec<u8>> {
        LiveResponse::message(message.message)
    }

    fn trailers(&mut self, _context: &mut (), _trailers: LiveTrailers) -> LiveResponse<Vec<u8>> {
        LiveResponse::finish(Status::new(Code::Okay, "done"))
    }
}

/// Says something when a call begins, and leaves the rest as it is.
struct Greeter;

impl Handler for Greeter {
    fn start(
        &mut self,
        _context: &mut (),
        _routes: &mut StreamRoutes,
        _stream_id: StreamId,
        _head: &RequestHead,
        reply: &mut StreamReply,
    ) -> StreamMode {
        reply.push_message(b"hello".to_vec());
        StreamMode::Live
    }

    fn message(
        &mut self,
        _context: &mut (),
        _routes: &mut StreamRoutes,
        _stream_id: StreamId,
        _message: MessageFrame,
        _reply: &mut StreamReply,
    ) {
    }

    fn trailers(
        &mut self,
        _context: &mut (),
        _routes: &mut StreamRoutes,
        _stream_id: StreamId,
        _trailers: Metadata,
        _reply: &mut StreamReply,
    ) {
    }

    fn request(&mut self, _context: &mut (), _request: Request, _response: &mut Response) {}
}

fn carry<H: Handler>(client: &mut Session, app: &mut App<H>, state: &mut ConnState) {
    for _ in 0..4 {
        loop {
            let bytes = client.outbound().to_vec();
            if bytes.is_empty() {
                break;
            }
            client.drain_outbound(bytes.len());
            assert_eq!(app.chunk(state, &bytes), Action::Flush { close_after: false });
        }
        loop {
            let mut out = Vec::new();
            let (n, _) = state.flush(4096, &mut out, false);
            if n == 0 {
                break;
            }
            state.drive_pending();
            client.ingest(&out).unwrap();
        }
    }
}

fn serve<H: Handler>(handler: H, limits: Limits) -> (Session, App<H>, ConnState) {
    let Ok(limits) = ValidatedLimits::new(limits) else {
        panic!("good limits");
    };
    let app = App::with_config(handler, limits);
    let state = app.connection();
    (Session::new(), app, state)
}

#[test]
fn a_unary_call_is_answered() {
    let (mut client, mut app, mut state) = serve(Echo, Limits::default());
    let mut extra = Metadata::new();
    extra.push(b"x-trace", b"7").unwrap();
    let id = client.start_unary_raw(b"/svc/Echo", None, &extra, b"ping").unwrap();
    carry(&mut client, &mut app, &mut state);
    let result = client.poll_unary().expect("an answer");
    assert_eq!(result.stream_id, id);
    assert_eq!(result.metadata.get(b"x-trace"), Some(&b"7"[..]));
    assert_eq!(result.status.code(), Code::Okay);
    assert_eq!(result.into_single_payload().unwrap().into_vec(), b"ping".to_vec());
    assert!(client.poll_unary().is_none());
}

#[test]
fn large_messages_are_sent_in_parts() {
    let (mut client, mut app, mut state) = serve(Echo, Limits::default());
    let payload: Vec<u8> = (0..200_000u32).map(|i| i as u8).collect();
    client.start_unary_raw(b"/svc/Echo", None, &Metadata::new(), &payload).unwrap();
    for _ in 0..40 {
        carry(&mut client, &mut app, &mut state);
    }
    let result = client.poll_unary().expect("an answer");
    assert_eq!(result.into_single_payload().unwrap().into_vec(), payload);
}

#[test]
fn a_stream_is_answered_message_by_message() {
    let mut routes = Routes::new();
    routes.push(b"/svc/Live", LiveStreaming::new(LiveEcho, BytesCodec));
    let (mut client, mut app, mut state) = serve(routes, Limits::default());
    let id = client.start_stream_raw(b"/svc/Live", None, &Metadata::new()).unwrap();
    for text in [&b"one"[..], b"two"] {
        client.send_message_raw(id, text).unwrap();
        carry(&mut client, &mut app, &mut state);
    }
    client.finish_send(id).unwrap();
    carry(&mut client, &mut app, &mut state);
    let mut seen = Vec::new();
    while let Some(event) = client.poll_event() {
        match event {
            StreamEvent::Headers { .. } => seen.push(b"headers".to_vec()),
            StreamEvent::Message { message, .. } => seen.push(message.payload.into_vec()),
            StreamEvent::Trailers { status, .. } => {
                assert_eq!(status.code(), Code::Okay);
                seen.push(status.message().as_bytes().to_vec());
            }
        }
    }
    assert_eq!(
        seen,
        vec![b"headers".to_vec(), b"one".to_vec(), b"two".to_vec(), b"done".to_vec()]
    );
}

#[test]
fn a_message_that_cannot_be_read_ends_the_call() {
    let mut routes = Routes::new();
    routes.push(b"/svc/Live", LiveStreaming::new(LiveEcho, BytesCodec));
    let (mut client, mut app, mut state) = serve(routes, Limits::default());
    client
        .start_streaming_raw(b"/svc/Live", None, &Metadata::new(), &[b"bad"])
        .unwrap();
    carry(&mut client, &mut app, &mut state);
    let mut ended = None;
    while let Some(event) = client.poll_event() {
        if let StreamEvent::Trailers { status, .. } = event {
            ended = Some(status.code());
        }
    }
    assert_eq!(ended, Some(Code::InvalidArgument));
}

#[test]
fn a_handler_may_speak_first() {
    let (mut client, mut app, mut state) = serve(Greeter, Limits::default());
    let id = client.start_stream_raw(b"/svc/Hi", None, &Metadata::new()).unwrap();
    carry(&mut client, &mut app, &mut state);
    assert!(matches!(client.poll_event(), Some(StreamEvent::Headers { .. })));
    let Some(StreamEvent::Message { message, .. }) = client.poll_event() else {
        panic!("a greeting");
    };
    assert_eq!(message.payload.as_slice(), b"hello");
    client.finish_send(id).unwrap();
    carry(&mut client, &mut app, &mut state);
    assert!(matches!(
        client.poll_event(),
        Some(StreamEvent::Trailers { status, .. }) if status.code() == Code::Okay
    ));
}

#[test]
fn an_unknown_path_is_told() {
    let routes: Routes<Echo> = Routes::new();
    let (mut client, mut app, mut state) = serve(routes, Limits::default());
    client.start_unary_raw(b"/svc/Nope", None, &Metadata::new(), b"").unwrap();
    carry(&mut client, &mut app, &mut state);
    let result = client.poll_unary().expect("an answer");
    assert_eq!(result.status.code(), Code::Unimplemented);
    assert_eq!(result.status.message(), "unknown gRPC method");
}

#[test]
fn a_request_over_the_limit_is_refused() {
    let limits = Limits { max_buffered_len: 4, ..Limits::default() };
    let (mut client, mut app, mut state) = serve(Echo, limits);
    client.start_unary_raw(b"/svc/Echo", None, &Metadata::new(), b"12345").unwrap();
    carry(&mut client, &mut app, &mut state);
    let result = client.poll_unary().expect("an answer");
    assert_eq!(result.status.code(), Code::ResourceExhausted);
    assert_eq!(result.status.message(), "stream buffer limit exceeded");
    // The room that it took is free again.
    client.start_unary_raw(b"/svc/Echo", None, &Metadata::new(), b"1234").unwrap();
    carry(&mut client, &mut app, &mut state);
    assert_eq!(client.poll_unary().unwrap().status.code(), Code::Okay);
}

#[test]
fn a_message_that_is_too_long_is_refused() {
    let limits = Limits { max_message_len: 3, ..Limits::default() };
    let (mut client, mut app, mut state) = serve(Echo, limits);
    client.start_unary_raw(b"/svc/Echo", None, &Metadata::new(), b"1234").unwrap();
    carry(&mut client, &mut app, &mut state);
    let result = client.poll_unary().expect("an answer");
    assert_eq!(result.status.code(), Code::ResourceExhausted);
    assert_eq!(result.status.message(), "gRPC message too large");
}

#[test]
fn calls_do_not_meddle() {
    let (mut client, mut app, mut state) = serve(Echo, Limits::default());
    let a = client.start_client_stream_raw(b"/svc/Echo", None, &Metadata::new()).unwrap();
    let b = client.start_unary_raw(b"/svc/Echo", None, &Metadata::new(), b"b").unwrap();
    client.send_message_raw(a, b"a").unwrap();
    carry(&mut client, &mut app, &mut state);
    let first = client.poll_unary().expect("the second call is complete");
    assert_eq!(first.stream_id, b);
    client.finish_send(a).unwrap();
    carry(&mut client, &mut app, &mut state);
    let second = client.poll_unary().expect("the first call is complete");
    assert_eq!(second.stream_id, a);
    assert_eq!(second.into_single_payload().unwrap().as_slice(), b"a");
}

#[test]
fn a_client_checks_its_configuration_and_messages() {
    let zero = Config { max_in_flight: 0, ..Config::default() };
    assert!(Session::checked(zero).is_none());
    let Some(mut client) = Session::checked(Config { max_message_len: 2, ..Config::default() })
    else {
        panic!("a good configuration");
    };
    let refused = client
        .start_unary_raw(b"/svc/Echo", None, &Metadata::new(), b"123")
        .unwrap_err();
    assert_eq!(refused.code(), Code::ResourceExhausted);
    assert_eq!(refused.message(), "gRPC message is too large");
    let id = client.start_client_stream_raw(b"/svc/Echo", None, &Metadata::new()).unwrap();
    client.finish_send(id).unwrap();
    let closed = client.send_message_raw(id, b"x").unwrap_err();
    assert_eq!(closed.message(), "request stream is closed");
}

#[test]
fn whole_requests_round_trip() {
    let mut body = Vec::new();
    for text in [&b"x"[..], b"", b"yz"] {
        MessageFrame::encode(false, text, &mut body).unwrap();
    }
    let read = Limits::default().read_messages(&body).unwrap();
    assert_eq!(read.len(), 3);
    let mut response = Response::new();
    for message in read {
        response.push_message(message.payload.into_vec());
    }
    let mut again = Vec::new();
    response.encode_body(&mut again).unwrap();
    assert_eq!(again, body);
    let few = Limits { max_buffered_msgs: 2, ..Limits::default() };
    let refused = few.read_messages(&body).err().unwrap();
    assert_eq!(refused.message(), "request message buffer is full");
}

#[test]
fn a_plain_request_is_told_from_a_preface() {
    let preface = b"PRI * HTTP/2.0\r\n\r\nSM\r\n\r\n";
    for n in 0..=preface.len() {
        assert!(!Liveness::is_plain_request(&preface[..n]));
    }
    assert!(Liveness::is_plain_request(b"GET /"));
    assert_eq!(
        Liveness::response(),
        b"HTTP/1.1 200 OK\r\ncontent-length: 0\r\nconnection: close\r\n\r\n"
    );
}

#[test]
fn a_broken_connection_is_told_and_closed() {
    let app_limits = ValidatedLimits::new(Limits::default());
    let Ok(limits) = app_limits else {
        panic!("good limits");
    };
    let mut app = App::with_config(Echo, limits);
    let mut state = app.connection();
    assert_eq!(
        app.chunk(&mut state, b"this is no preface at all"),
        Action::Flush { close_after: true }
    );
    let mut out = Vec::new();
    while state.flush(4096, &mut out, true).0 > 0 {}
    // The last frame is GOAWAY.
    assert_eq!(out[out.len() - 17 + 3], 7);
    assert_eq!(app.chunk(&mut state, b"more"), Action::Flush { close_after: true });
}

struct Fussy(Vec<Vec<u8>>);

impl Codec for Fussy {
    type Encode = Vec<u8>;
    type Decode = Vec<u8>;

    fn encode(&mut self, item: &Self::Encode, out: &mut Vec<u8>) -> Result<(), Status> {
        self.0.push(item.clone());
        if item == b"bad" {
            return Err(Status::new(Code::Internal, "no such message"));
        }
        out.extend_from_slice(item);
        Ok(())
    }

    fn decode(&mut self, bytes: &[u8]) -> Result<Self::Decode, Status> {
        Ok(bytes.to_vec())
    }
}

#[test]
fn nothing_is_encoded_after_a_failure() {
    let mut codec = Fussy(Vec::new());
    let mut reply = StreamReply::new();
    reply.push_message(b"before".to_vec());
    let mut response = LiveResponse::message(b"one".to_vec());
    response.messages.push(b"bad".to_vec());
    response.messages.push(b"three".to_vec());
    response.status = Some(Status::new(Code::Okay, "fine"));
    reply.apply_live(response, &mut codec);
    assert_eq!(codec.0, vec![b"one".to_vec(), b"bad".to_vec()]);
    assert!(reply.messages.is_empty());
    assert_eq!(reply.status, Some(Status::new(Code::Internal, "no such message")));
}

#[test]
fn messages_take_the_slots_that_were_set_up() {
    let limits = Limits { max_buffered_msgs: 9, ..Limits::default() };
    let fields = [
        (":method", "POST"),
        (":scheme", "http"),
        (":path", "/a.B/c"),
        ("content-type", "application/grpc"),
        ("te", "trailers"),
    ]
    .map(|(name, value)| OwnedHeader::new(name.as_bytes(), value.as_bytes()));
    let message = || MessageFrame {
        compressed: false,
        payload: Payload::from_vec(b"m".to_vec()),
    };
    let mut calls = CallStore::with_capacity(2, 1, 1, 100);
    for raw in [1, 3] {
        let head = RequestHead::parse_h2(&fields).unwrap();
        assert!(calls.insert(StreamId::new(raw).unwrap(), head, StreamMode::Buffered, 16));
    }
    let (a, b) = (StreamId::new(1).unwrap(), StreamId::new(3).unwrap());
    assert!(calls.push_message(a, message(), &limits));
    assert!(!calls.push_message(b, message(), &limits));
    let reply = |text: &[u8]| {
        let mut reply = StreamReply::new();
        reply.push_message(text.to_vec());
        reply
    };
    assert!(calls.enqueue(a, reply(b"x")).is_ok());
    let failure = calls.enqueue(b, reply(b"y")).unwrap_err();
    assert_eq!(failure, Status::new(Code::ResourceExhausted, "pending response messages are full"));
    calls.remove(a);
    assert!(calls.push_message(b, message(), &limits));
    assert!(calls.enqueue(b, reply(b"y")).is_ok());
}
