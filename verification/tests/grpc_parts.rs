use sark::collections::Pool;
use sark::grpc::frame::{DataChunk, Deframer, FrameError, MessageFrame, Payload};
use sark::grpc::headers::{HeaderBlock, RequestHead, ResponseHead};
use sark::grpc::metadata::{Metadata, MetadataError};
use sark::grpc::server::{Limits, ValidatedLimits};
use sark::grpc::{Code, Status};
use sark::h2::frame::ParseError;
use sark::h2::hpack::OwnedHeader;
use sark::h2::{ConnError, ErrorCode};

fn list(fields: &[(&str, &str)]) -> Vec<OwnedHeader> {
    fields
        .iter()
        .map(|(name, value)| OwnedHeader::new(name.as_bytes(), value.as_bytes()))
        .collect()
}

fn metadata(fields: &[(&str, &str)]) -> Metadata {
    let mut out = Metadata::new();
    for (name, value) in fields {
        out.push(name.as_bytes(), value.as_bytes()).unwrap();
    }
    out
}

#[test]
fn codes_are_written_as_digits() {
    assert_eq!(Code::Okay.as_u8(), 0);
    assert_eq!(Code::Unauthenticated.as_u8(), 16);
    assert_eq!(Code::from_u8(12), Some(Code::Unimplemented));
    assert_eq!(Code::from_u8(17), None);
    assert_eq!(Code::parse_ascii(b"16"), Some(Code::Unauthenticated));
    assert_eq!(Code::parse_ascii(b"7"), Some(Code::PermissionDenied));
    assert_eq!(Code::parse_ascii(b"x"), None);
    assert_eq!(Code::parse_ascii(b""), None);
    let mut out = Vec::new();
    Status::new(Code::DataLoss, "").write_grpc_status_value(&mut out);
    assert_eq!(out, b"15".to_vec());
}

#[test]
fn texts_are_escaped_and_come_back() {
    let mut out = Vec::new();
    Status::encode_message("100% \u{e9}!\n", &mut out);
    assert_eq!(out, b"100%25 %C3%A9!%0A".to_vec());
    assert_eq!(Status::decode_message(&out), "100% \u{e9}!\n");
    assert_eq!(Status::decode_message(b"%zz%4"), "%zz%4");
    // Bytes that are no text get a mark.
    assert_eq!(Status::decode_message(b"a%FFb"), "a\u{fffd}b");
}

#[test]
fn failures_have_codes() {
    assert_eq!(Status::from_conn_err(ConnError::StreamGoneAway).code(), Code::Unavailable);
    assert_eq!(Status::from_conn_err(ConnError::Overload).code(), Code::ResourceExhausted);
    let parse = Status::from_conn_err(ConnError::ParseError(ParseError::Padding));
    assert_eq!(parse.code(), Code::Internal);
    assert!(parse.message().starts_with("HTTP/2 error: "));
    assert_eq!(
        Status::from_frame_err(FrameError::BadCompressionFlag(7)).code(),
        Code::InvalidArgument
    );
    assert_eq!(
        Status::from_frame_err(FrameError::MessageTooLarge { len: 2, max: 1 }).code(),
        Code::ResourceExhausted
    );
    assert_eq!(Status::from_frame_err(FrameError::LengthOverflow).code(), Code::Internal);
    assert_eq!(Status::from_frame_err(FrameError::Capacity).code(), Code::ResourceExhausted);
    assert_eq!(Status::from_reset_err(ErrorCode::Cancel).code(), Code::Cancelled);
    assert_eq!(Status::from_reset_err(ErrorCode::RefusedStream).code(), Code::Unavailable);
    assert_eq!(Status::from_reset_err(ErrorCode::Connect).code(), Code::Internal);
    assert_eq!(
        Status::from_metadata_err(MetadataError::EmptyName).code(),
        Code::InvalidArgument
    );
}

#[test]
fn endings_are_read_from_trailers() {
    let trailers = metadata(&[("grpc-status", "5"), ("grpc-message", "no%20such")]);
    let status = Status::from_trailers(&trailers).unwrap();
    assert_eq!(status.code(), Code::NotFound);
    assert_eq!(status.message(), "no such");
    let missing = Status::from_trailers(&Metadata::new()).unwrap_err();
    assert_eq!(missing.message(), "missing grpc-status");
    let bad = Status::from_values(Some(b"99"), None).unwrap_err();
    assert_eq!(bad.message(), "invalid grpc-status");
}

#[test]
fn names_are_checked() {
    let mut out = Metadata::new();
    assert_eq!(out.push(b"", b"x"), Err(MetadataError::EmptyName));
    assert_eq!(out.push(b"connection", b"x"), Err(MetadataError::ConnectionHeader));
    assert_eq!(out.push(b"-bin", b"x"), Err(MetadataError::BadBinaryName));
    assert_eq!(out.push(b"trace-bin", b"\x00\xff"), Ok(()));
    assert_eq!(out.get(b"trace-bin"), Some(&b"\x00\xff"[..]));
    assert!(Metadata::is_reserved(b"grpc-timeout"));
    assert!(Metadata::is_reserved(b"te"));
    assert!(!Metadata::is_reserved(b"user"));
}

#[test]
fn requests_are_read_back() {
    let extra = metadata(&[("x-a", "1"), ("x-a", "2")]);
    let block = HeaderBlock::for_request(b"/svc/Method", Some(b"host"), &extra).unwrap();
    assert_eq!(block.iter().len(), 8);
    let head = RequestHead::parse_h2(block.iter()).unwrap();
    assert_eq!(head.path, b"/svc/Method".to_vec());
    assert_eq!(head.authority, Some(b"host".to_vec()));
    assert_eq!(head.metadata.get_all(b"x-a"), vec![&b"1"[..], &b"2"[..]]);
    assert_eq!(HeaderBlock::for_response(&Metadata::new()).unwrap().iter().len(), 2);
    assert_eq!(
        HeaderBlock::for_trailers(&Status::ok(), &Metadata::new()).unwrap().iter().len(),
        1
    );
}

#[test]
fn paths_name_a_service_and_a_method() {
    for path in [&b"svc/Method"[..], b"/svc", b"/", b"/a/b/c", b""] {
        let refused = HeaderBlock::for_request(path, None, &Metadata::new()).unwrap_err();
        assert_eq!(refused.code(), Code::Unimplemented);
        assert_eq!(refused.message(), "invalid gRPC path");
    }
}

#[test]
fn answers_are_checked() {
    let good = list(&[(":status", "200"), ("content-type", "application/grpc"), ("x", "y")]);
    assert_eq!(ResponseHead::parse_h2(&good).unwrap().metadata.get(b"x"), Some(&b"y"[..]));
    let status = list(&[(":status", "404"), ("content-type", "application/grpc")]);
    assert_eq!(
        ResponseHead::parse_h2(&status).unwrap_err().message(),
        "non-200 HTTP/2 response"
    );
    let kind = list(&[(":status", "200"), ("content-type", "text/html")]);
    assert_eq!(
        ResponseHead::parse_h2(&kind).unwrap_err().message(),
        "missing application/grpc content-type"
    );
    assert!(HeaderBlock::is_grpc_content_type(b"application/grpc+json"));
    assert!(!HeaderBlock::is_grpc_content_type(b"application/grpcweb"));
}

#[test]
fn a_status_and_its_trailers_are_read_back() {
    let status = Status::new(Code::Aborted, "try \u{2192} again");
    let block = HeaderBlock::for_trailers(&status, &metadata(&[("x-left", "3")])).unwrap();
    let (read, rest) = Status::parse_h2_trailers(block.iter()).unwrap();
    assert_eq!(read, status);
    assert_eq!(rest.get(b"x-left"), Some(&b"3"[..]));
    let reserved = metadata(&[("grpc-status", "0")]);
    assert!(HeaderBlock::for_trailers(&status, &reserved).is_err());
}

fn pool_of_one() -> Pool {
    let limits = ValidatedLimits::new(Limits {
        max_fragmented_messages: 1,
        ..Limits::default()
    });
    let Ok(limits) = limits else {
        panic!("one place is allowed");
    };
    limits.message_pool()
}

#[test]
fn messages_come_back_whatever_the_pieces() {
    let mut wire = Vec::new();
    MessageFrame::encode(false, b"first", &mut wire).unwrap();
    MessageFrame::encode(true, b"", &mut wire).unwrap();
    MessageFrame::encode(false, b"third", &mut wire).unwrap();
    assert_eq!(&wire[..5], &[0, 0, 0, 0, 5]);
    let mut pool = pool_of_one();
    for size in 1..=wire.len() {
        let mut deframer = Deframer::new(16);
        let mut seen = Vec::new();
        for piece in wire.chunks(size) {
            let mut input = DataChunk::from_bytes(piece.to_vec());
            while let Some(message) = deframer.next(&mut input, &mut pool).unwrap() {
                seen.push((message.compressed, message.payload.into_vec()));
                if input.is_empty() {
                    break;
                }
            }
        }
        assert_eq!(
            seen,
            vec![
                (false, b"first".to_vec()),
                (true, Vec::new()),
                (false, b"third".to_vec()),
            ]
        );
    }
}

#[test]
fn bad_messages_are_refused() {
    let mut pool = pool_of_one();
    let mut flag = DataChunk::from_bytes(vec![2, 0, 0, 0, 0]);
    assert_eq!(
        Deframer::new(16).next(&mut flag, &mut pool).err().unwrap(),
        FrameError::BadCompressionFlag(2)
    );
    let mut long = DataChunk::from_bytes(vec![0, 0, 0, 0, 17]);
    assert_eq!(
        Deframer::new(16).next(&mut long, &mut pool).err().unwrap(),
        FrameError::MessageTooLarge { len: 17, max: 16 }
    );
    // A message of which a part is still to come holds the only place.
    let mut holder = Deframer::new(16);
    let mut part = DataChunk::from_bytes(vec![0, 0, 0, 0, 2, b'x']);
    assert!(holder.next(&mut part, &mut pool).unwrap().is_none());
    let mut other = DataChunk::from_bytes(vec![0, 0, 0, 0, 2, b'x']);
    assert_eq!(
        Deframer::new(16).next(&mut other, &mut pool).err().unwrap(),
        FrameError::Capacity
    );
    drop(holder);
    let mut again = DataChunk::from_bytes(vec![0, 0, 0, 0, 2, b'x']);
    assert!(Deframer::new(16).next(&mut again, &mut pool).unwrap().is_none());
}

#[test]
fn a_message_holds_its_place_while_it_is_kept() {
    let mut pool = pool_of_one();
    let mut deframer = Deframer::new(16);
    let mut first = DataChunk::from_bytes(vec![0, 0, 0, 0, 2, b'x']);
    assert!(deframer.next(&mut first, &mut pool).unwrap().is_none());
    let mut second = DataChunk::from_bytes(vec![b'y', 0, 0, 0, 0, 2, b'z']);
    let message = deframer.next(&mut second, &mut pool).unwrap().expect("complete");
    assert_eq!(message.payload.as_slice(), b"xy");
    let refused = deframer.next(&mut second, &mut pool).err().unwrap();
    assert_eq!(refused, FrameError::Capacity);
    // Once the message is gone there is a place for another.
    drop(message);
    let mut again = DataChunk::from_bytes(vec![0, 0, 0, 0, 2, b'z']);
    assert!(Deframer::new(16).next(&mut again, &mut pool).unwrap().is_none());
}

#[test]
fn messages_are_compared_by_what_they_say() {
    let message = |compressed, text: &[u8]| MessageFrame {
        compressed,
        payload: Payload::from_vec(text.to_vec()),
    };
    assert!(message(false, b"x") == message(false, b"x"));
    assert!(message(false, b"x") != message(true, b"x"));
    assert!(message(false, b"x") != message(false, b"y"));
}
