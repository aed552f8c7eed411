use sark::grpc::frame::MessageFrame;
use sark::grpc::headers::RequestHead;
use sark::grpc::metadata::Metadata;
use sark::grpc::server::{Handler, Limits, Request, Response, Routes, StreamRoutes};
use sark::grpc::status::Code;
use sark::grpc::{StreamId, StreamMode, StreamReply};

struct Echo;

impl Handler for Echo {
    fn start(
        &mut self,
        _context: &mut (),
        _routes: &mut StreamRoutes,
        _stream_id: StreamId,
        _head: &RequestHead,
        _reply: &mut StreamReply,
    ) -> StreamMode {
        StreamMode::Buffered
    }

    fn message(
        &mut self,
        _context: &mut (),
        _routes: &mut StreamRoutes,
        _stream_id: StreamId,
        _message: MessageFrame,
        _reply: &mut StreamReply,
    ) {
    }

    fn trailers(
        &mut self,
        _context: &mut (),
        _routes: &mut StreamRoutes,
        _stream_id: StreamId,
        _trailers: Metadata,
        _reply: &mut StreamReply,
    ) {
    }

    fn request(&mut self, _context: &mut (), request: Request, response: &mut Response) {
        for message in request.messages.iter() {
            response.push_message(message.payload.as_slice().to_vec());
        }
    }
}

fn head(path: &[u8]) -> RequestHead {
    RequestHead {
        path: path.to_vec(),
        authority: None,
        metadata: Default::default(),
    }
}

fn framed(count: usize, size: usize, compressed: bool) -> Vec<u8> {
    let mut out = Vec::new();
    let payload = vec![0u8; size];
    for _ in 0..count {
        MessageFrame::encode(compressed, &payload, &mut out).unwrap();
    }
    out
}

#[test]
fn drives_handler_and_reframes_to_original_wire() {
    let body = framed(2, 4, false);
    let response = Limits::default().dispatch_buffered(&mut Echo, head(b"/svc"), &body);
    assert_eq!(response.status.code(), Code::Okay);
    assert_eq!(response.messages.len(), 2);
    let mut wire = Vec::new();
    response.encode_body(&mut wire).unwrap();
    assert_eq!(
        wire, body,
        "encode_body must reframe to the original wire bytes"
    );
}

#[test]
fn over_long_message_is_rejected() {
    let config = Limits {
        max_message_len: 2,
        ..Limits::default()
    };
    let response = config.dispatch_buffered(&mut Echo, head(b"/svc"), &framed(1, 8, false));
    assert_ne!(response.status.code(), Code::Okay);
    assert!(response.messages.is_empty());
}

#[test]
fn compressed_message_is_unimplemented() {
    let response =
        Limits::default().dispatch_buffered(&mut Echo, head(b"/svc"), &framed(1, 4, true));
    assert_eq!(response.status.code(), Code::Unimplemented);
}

#[test]
fn unknown_method_is_unimplemented() {
    let mut routes: Routes<Echo> = Routes::new();
    let response = Limits::default().dispatch_buffered(&mut routes, head(b"/missing"), &[]);
    assert_eq!(response.status.code(), Code::Unimplemented);
}
