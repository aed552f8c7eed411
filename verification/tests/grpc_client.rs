use sark::grpc::client::{Config, Session, StreamEvent, UnaryResult};
use sark::grpc::frame::{MessageFrame, Payload};
use sark::grpc::headers::HeaderBlock;
use sark::grpc::metadata::Metadata;
use sark::grpc::status::{Code, Status};
use sark::grpc::Codec;
use sark::h2::{Conn, ServerRole};

struct BytesCodec;

impl Codec for BytesCodec {
    type Encode = Vec<u8>;
    type Decode = Vec<u8>;

    fn encode(&mut self, item: &Self::Encode, out: &mut Vec<u8>) -> Result<(), Status> {
        out.extend_from_slice(item);
        Ok(())
    }

    fn decode(&mut self, bytes: &[u8]) -> Result<Self::Decode, Status> {
        Ok(bytes.to_vec())
    }
}

fn framed(count: usize, size: usize) -> Vec<u8> {
    let mut out = Vec::new();
    let payload = vec![7u8; size];
    for _ in 0..count {
        MessageFrame::encode(false, &payload, &mut out).unwrap();
    }
    out
}

#[test]
fn client_buffered_stream_over_cap_is_resource_exhausted() {
    let mut client = Session::with_config(Config {
        max_message_len: 1 << 20,
        max_buffered_len: 1000,
        max_buffered_msgs: 1 << 20,
        ..Config::default()
    });
    let stream_id = client
        .start_stream_raw(b"/svc/Method", None, &Metadata::new())
        .expect("start stream");
    let req = client.outbound().to_vec();
    client.drain_outbound(req.len());

    let mut server = Conn::<ServerRole>::new();
    server.ingest(&req).expect("server ingests client request");
    while server.poll_event().is_some() {}

    let resp_headers = HeaderBlock::for_response(&Metadata::new()).expect("response headers");
    let h2_headers = resp_headers.as_h2();
    server
        .send_response(stream_id, &h2_headers, false)
        .expect("send response headers");

    let body = framed(15, 100);
    let sent = server
        .send_data(stream_id, &body, false)
        .expect("send response data");
    assert_eq!(sent, body.len(), "flow window must accept the test body");

    let resp = server.outbound().to_vec();
    let status = client
        .ingest(&resp)
        .expect_err("client must reject buffering past the cap");
    assert_eq!(status.code(), Code::ResourceExhausted);
}

#[test]
fn an_answer_is_decoded() {
    let message = UnaryResult {
        stream_id: sark::h2::StreamId::new(1).unwrap(),
        metadata: Metadata::new(),
        message: Some(MessageFrame { compressed: false, payload: Payload::from_vec(b"hi".to_vec()) }),
        trailers: Metadata::new(),
        status: Status::ok(),
    };
    assert_eq!(message.decode_single(&mut BytesCodec), Ok(b"hi".to_vec()));
    let piece = StreamEvent::Message {
        stream_id: sark::h2::StreamId::new(1).unwrap(),
        message: MessageFrame { compressed: true, payload: Payload::from_vec(b"hi".to_vec()) },
    };
    assert_eq!(
        piece.decode_message(&mut BytesCodec).unwrap().unwrap_err().code(),
        Code::Unimplemented
    );
}

/// A client with room for one message that comes in pieces, and a server that has sent it two.
fn two_in_pieces(poll: bool) -> Result<(), Status> {
    let mut client = Session::with_config(Config { max_pending_msgs: 1, ..Config::default() });
    let stream_id = client.start_stream_raw(b"/svc/Method", None, &Metadata::new()).unwrap();
    let mut server = Conn::<ServerRole>::new();
    server.ingest(&client.outbound().to_vec()).unwrap();
    let fields = HeaderBlock::for_response(&Metadata::new()).unwrap();
    server.send_response(stream_id, &fields.as_h2(), false).unwrap();
    let message = framed(1, 4);
    for _ in 0..2 {
        for piece in [&message[..6], &message[6..]] {
            server.send_data(stream_id, piece, false).unwrap();
            let bytes = server.outbound().to_vec();
            server.drain_outbound(bytes.len());
            client.ingest(&bytes)?;
        }
        while poll && client.poll_event().is_some() {}
    }
    Ok(())
}

#[test]
fn messages_that_wait_hold_their_places() {
    assert_eq!(two_in_pieces(false).unwrap_err().code(), Code::ResourceExhausted);
    assert!(two_in_pieces(true).is_ok());
}
