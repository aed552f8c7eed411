use sark::grpc::frame::MessageFrame;
use sark::grpc::headers::{HeaderBlock, RequestHead};
use sark::grpc::metadata::Metadata;
use sark::grpc::server::{
    is_h2_preface_prefix, Action, App, ConfigError, Handler, Limits, Liveness, Request, Response,
    StreamRoutes, ValidatedLimits,
};
use sark::grpc::{Status, StreamMode, StreamReply};
use sark::h2::{conn, ClientRole, Conn, ErrorCode, StreamId};

fn sid(raw: u32) -> StreamId {
    assert!(raw <= StreamId::MAX, "invalid test stream ID");
    StreamId::new(raw).expect("range checked above")
}

struct Nop;

impl Handler for Nop {
    fn start(
        &mut self,
        _context: &mut (),
        _routes: &mut StreamRoutes,
        _stream_id: StreamId,
        _head: &RequestHead,
        _reply: &mut StreamReply,
    ) -> StreamMode {
        StreamMode::Buffered
    }

    fn message(
        &mut self,
        _context: &mut (),
        _routes: &mut StreamRoutes,
        _stream_id: StreamId,
        _message: MessageFrame,
        _reply: &mut StreamReply,
    ) {
    }

    fn trailers(
        &mut self,
        _context: &mut (),
        _routes: &mut StreamRoutes,
        _stream_id: StreamId,
        _trailers: Metadata,
        _reply: &mut StreamReply,
    ) {
    }

    fn request(&mut self, _context: &mut (), _request: Request, response: &mut Response) {
        response.status = Status::ok();
    }
}

#[test]
fn invalid_limits_fail_before_listener_or_connection_construction() {
    let result = ValidatedLimits::new(Limits {
        max_in_flight: 0,
        ..Limits::default()
    });
    assert!(matches!(
        result,
        Err(ConfigError::ZeroCapacity("max_in_flight"))
    ));
}

#[test]
fn configured_capacity_is_built_at_accept() {
    let limits = ValidatedLimits::new(Limits {
        max_in_flight: 1,
        ..Limits::default()
    });
    let Ok(limits) = limits else {
        panic!("good limits");
    };
    let mut app = App::with_config(Nop, limits);
    let mut state = app.connection();
    let mut client = Conn::<ClientRole>::new();
    let headers = HeaderBlock::for_request(b"/svc/Method", None, &Metadata::new()).unwrap();
    assert_eq!(
        client.start_request_fields(&headers.as_h2(), true).unwrap(),
        sid(1)
    );
    assert_eq!(
        client.start_request_fields(&headers.as_h2(), true).unwrap(),
        sid(3)
    );
    let request = client.outbound().to_vec();
    client.drain_outbound(request.len());
    assert_eq!(
        app.chunk(&mut state, &request),
        Action::Flush { close_after: false }
    );
    let mut bytes = Vec::new();
    let (_, close) = state.flush(4096, &mut bytes, false);
    assert!(!close);
    client.ingest(&bytes).unwrap();
    assert_eq!(client.peer_settings().max_concurrent_streams, Some(1));
    let mut refused = false;
    while let Some(event) = client.poll_event() {
        if let conn::Event::StreamReset { stream_id, error } = event {
            refused |= stream_id == sid(3) && error == ErrorCode::RefusedStream;
        }
    }
    assert!(refused);
}

const PROBE: &[u8] =
    b"GET /baseline11?a=1&b=1 HTTP/1.1\r\nHost: localhost\r\nConnection: close\r\n\r\n";

#[test]
fn tls_answers_plaintext_liveness_on_sidecar_port() {
    assert!(Liveness::is_plain_request(PROBE));
    let response = String::from_utf8_lossy(Liveness::response()).into_owned();
    assert!(
        response.starts_with("HTTP/1.1 200"),
        "expected 200 from tls sidecar liveness, got: {response:?}"
    );
}

#[test]
fn h2c_answers_plaintext_liveness() {
    let mut app = App::new(Nop);
    app.set_liveness_fallback(true);
    let mut state = app.connection();
    assert_eq!(
        app.chunk(&mut state, PROBE),
        Action::Plain
    );
    assert!(Liveness::response().starts_with(b"HTTP/1.1 200"));
}

#[test]
fn h2c_preface_is_not_treated_as_liveness() {
    let mut app = App::new(Nop);
    app.set_liveness_fallback(true);
    let mut state = app.connection();
    assert_eq!(
        app.chunk(&mut state, b"PRI * HTTP/2.0\r\n\r\nSM\r\n\r\n"),
        Action::Flush { close_after: false }
    );
    assert!(!Liveness::is_plain_request(b"PRI * HT"));
    assert!(is_h2_preface_prefix(b"PRI * HTTP/2.0\r\n\r\nSM\r\n\r\nmore"));
    assert!(!is_h2_preface_prefix(PROBE));
    let mut bytes = Vec::new();
    state.flush(64, &mut bytes, false);
    assert!(!bytes.starts_with(b"HTTP/1.1"));
}
