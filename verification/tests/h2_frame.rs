use sark::h2::frame::{
    Continuation, Data, GoAway, Headers, ParseError, Ping, Priority, PriorityFields, PushPromise,
    RstStream, SettingId, Settings as SettingsFrame, Type, WindowUpdate,
};
use sark::h2::settings::Settings;
use sark::h2::{ConnError, ErrorCode, Frame, FrameHeader, FrameLength, StreamId, WindowIncrement};

fn sid(raw: u32) -> StreamId {
    StreamId::new(raw).expect("in range")
}

#[test]
fn a_frame_header_is_nine_bytes() {
    let mut out = Vec::new();
    Data::new(sid(3), true, b"hi").unwrap().encode(&mut out);
    assert_eq!(out, vec![0, 0, 2, 0, 1, 0, 0, 0, 3, b'h', b'i']);
    let header = FrameHeader::parse(&out).unwrap();
    assert_eq!(header.length.as_u32(), 2);
    assert_eq!(header.stream_id, sid(3));
    assert!(matches!(FrameHeader::parse(&out[..8]), Err(ParseError::NeedMore)));
}

#[test]
fn the_reserved_bit_is_ignored() {
    let bytes = [0, 0, 0, 0, 0, 0x80, 0, 0, 5];
    assert_eq!(FrameHeader::parse(&bytes).unwrap().stream_id, sid(5));
}

#[test]
fn frames_come_back_from_their_bytes() {
    let mut out = Vec::new();
    Headers::new(sid(1), false, true, None, b"block").unwrap().encode(&mut out);
    Continuation::new(sid(1), true, b"more").unwrap().encode(&mut out);
    RstStream::new(sid(1), ErrorCode::Cancel).unwrap().encode(&mut out);
    PushPromise::new(sid(1), sid(2), true, b"p").unwrap().encode(&mut out);
    GoAway::new(sid(7), ErrorCode::EnhanceYourCalm, b"bye").unwrap().encode(&mut out);
    Ping { ack: true, opaque: [1, 2, 3, 4, 5, 6, 7, 8] }.encode(&mut out);
    let increment = WindowIncrement::new(9).unwrap();
    WindowUpdate { stream_id: sid(0), increment }.encode(&mut out);

    let mut rest = out.as_slice();
    let (frame, n) = Frame::parse(rest).unwrap();
    let Frame::Headers(headers) = frame else {
        panic!("headers");
    };
    assert_eq!(headers.block_fragment(), b"block");
    assert!(headers.end_headers() && !headers.end_stream());
    rest = &rest[n..];
    let (frame, n) = Frame::parse(rest).unwrap();
    assert!(matches!(frame, Frame::Continuation(c) if c.block_fragment() == b"more"));
    rest = &rest[n..];
    let (frame, n) = Frame::parse(rest).unwrap();
    assert!(matches!(frame, Frame::RstStream(r) if r.error() == ErrorCode::Cancel));
    rest = &rest[n..];
    let (frame, n) = Frame::parse(rest).unwrap();
    assert!(matches!(frame, Frame::PushPromise(p) if p.promised_stream_id() == sid(2)));
    rest = &rest[n..];
    let (frame, n) = Frame::parse(rest).unwrap();
    assert!(matches!(frame, Frame::GoAway(g) if g.debug() == b"bye" && g.last_stream_id() == sid(7)));
    rest = &rest[n..];
    let (frame, n) = Frame::parse(rest).unwrap();
    assert!(matches!(frame, Frame::Ping(p) if p.ack && p.opaque == [1, 2, 3, 4, 5, 6, 7, 8]));
    rest = &rest[n..];
    let (frame, n) = Frame::parse(rest).unwrap();
    assert!(matches!(frame, Frame::WindowUpdate(w) if w.increment.get() == 9));
    assert_eq!(n, rest.len());
}

#[test]
fn priorities_are_five_bytes() {
    let fields = PriorityFields::parse(&[0x80, 0, 0, 3, 15]).unwrap();
    let mut out = Vec::new();
    Priority::new(sid(5), fields).unwrap().encode(&mut out);
    assert_eq!(out, vec![0, 0, 5, 2, 0, 0, 0, 0, 5, 0x80, 0, 0, 3, 15]);
    let (frame, _) = Frame::parse(&out).unwrap();
    assert!(matches!(frame, Frame::Priority(p) if p.stream_id() == sid(5)));
}

#[test]
fn bad_frames_are_told_apart() {
    // DATA on the connection itself.
    assert!(matches!(Frame::parse(&[0, 0, 0, 0, 0, 0, 0, 0, 0]), Err(ParseError::Protocol)));
    // A PING that is too short.
    assert!(matches!(
        Frame::parse(&[0, 0, 1, 6, 0, 0, 0, 0, 0, 0]),
        Err(ParseError::FrameSize)
    ));
    // A window that grows by nothing.
    assert!(matches!(
        Frame::parse(&[0, 0, 4, 8, 0, 0, 0, 0, 1, 0, 0, 0, 0]),
        Err(ParseError::ZeroIncrement)
    ));
    // Padding that is longer than the frame.
    assert!(matches!(
        Frame::parse(&[0, 0, 2, 0, 8, 0, 0, 0, 1, 2, 0]),
        Err(ParseError::Padding)
    ));
    // A kind that is not known.
    assert!(matches!(
        Frame::parse(&[0, 0, 0, 0x20, 0, 0, 0, 0, 1]),
        Err(ParseError::BadType(0x20))
    ));
    assert!(matches!(
        Frame::parse(&[0, 0, 2, 0, 0, 0, 0, 0, 1, 0]),
        Err(ParseError::NeedMore)
    ));
}

#[test]
fn padding_is_cut_off() {
    let (frame, n) = Frame::parse(&[0, 0, 5, 0, 8, 0, 0, 0, 1, 2, b'o', b'k', 0, 0]).unwrap();
    assert_eq!(n, 14);
    assert!(matches!(frame, Frame::Data(d) if d.payload() == b"ok"));
}

#[test]
fn codes_and_kinds_have_numbers() {
    assert_eq!(ErrorCode::from_u32(0xb), ErrorCode::EnhanceYourCalm);
    assert_eq!(ErrorCode::EnhanceYourCalm.as_u32(), 0xb);
    assert_eq!(ErrorCode::from_u32(99), ErrorCode::InternalError);
    assert_eq!(Type::from_u8(9), Ok(Type::Continuation));
    assert_eq!(Type::from_u8(10), Err(10));
    assert_eq!(Type::Settings.as_u8(), 4);
    assert_eq!(SettingId::from_u16(5), Some(SettingId::MaxFrameSize));
    assert_eq!(SettingId::from_u16(7), None);
    assert!(FrameLength::new(0xff_ffff).is_some());
    assert!(FrameLength::new(0x100_0000).is_none());
    assert!(WindowIncrement::new(0).is_none());
    assert!(WindowIncrement::new(0x8000_0000).is_none());
}

#[test]
fn settings_are_checked_and_written() {
    let mut settings = Settings::defaults();
    assert_eq!(settings.initial_window_size, 65_535);
    assert_eq!(settings.max_frame_size, 16_384);
    assert_eq!(settings.apply(SettingId::InitialWindowSize, 0x8000_0000), Err(ConnError::FlowControl));
    assert_eq!(settings.apply(SettingId::MaxFrameSize, 16_383), Err(ConnError::BadSettings));
    assert_eq!(settings.apply(SettingId::EnablePush, 2), Err(ConnError::BadSettings));
    assert_eq!(settings.apply(SettingId::MaxFrameSize, 20_000), Ok(()));
    assert_eq!(settings.apply(SettingId::MaxConcurrentStreams, 3), Ok(()));
    let mut params = Vec::new();
    settings.encode(&mut params);
    let mut out = Vec::new();
    SettingsFrame::new(false, &params).unwrap().encode(&mut out);
    let (frame, n) = Frame::parse(&out).unwrap();
    assert_eq!(n, out.len());
    let Frame::Settings(frame) = frame else {
        panic!("settings");
    };
    let mut back = Settings::defaults();
    let mut list = frame.iter();
    let mut count = 0;
    while let Some((id, value)) = list.next() {
        assert_eq!(back.apply(id.unwrap(), value), Ok(()));
        count += 1;
    }
    assert_eq!(back, settings);
    assert_eq!(count, settings.param_count());
}
