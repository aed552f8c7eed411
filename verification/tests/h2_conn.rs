use sark::h2::conn::{Config, Event, OutboundWrite};
use sark::h2::hpack::{Decoder, DecoderError, Encoder, OwnedHeader};
use sark::h2::{
    client_preface, ClientRole, ConfigError, Conn, ConnError, ErrorCode, Header, Role, ServerRole,
    Settings, StreamId,
};

fn sid(raw: u32) -> StreamId {
    StreamId::new(raw).expect("in range")
}

fn get(path: &'static [u8]) -> [Header<'static>; 4] {
    [
        Header::new(b":method", b"GET"),
        Header::new(b":scheme", b"http"),
        Header::new(b":path", path),
        Header::new(b":authority", b"example"),
    ]
}

fn carry<A: Role, B: Role>(from: &mut Conn<A>, to: &mut Conn<B>) -> Result<(), ConnError> {
    let mut result = Ok(());
    loop {
        let bytes = from.outbound().to_vec();
        if bytes.is_empty() {
            return result;
        }
        from.drain_outbound(bytes.len());
        result = result.and(to.ingest(&bytes));
    }
}

fn pair() -> (Conn<ClientRole>, Conn<ServerRole>) {
    let mut client = Conn::<ClientRole>::new();
    let mut server = Conn::<ServerRole>::new();
    carry(&mut client, &mut server).unwrap();
    carry(&mut server, &mut client).unwrap();
    carry(&mut client, &mut server).unwrap();
    while client.poll_event().is_some() {}
    while server.poll_event().is_some() {}
    (client, server)
}

fn name_value(headers: &[OwnedHeader], name: &[u8]) -> Option<Vec<u8>> {
    headers.iter().find(|h| h.name == name).map(|h| h.value.clone())
}

#[test]
fn a_client_begins_with_the_preface() {
    let client = Conn::<ClientRole>::new();
    assert!(client.outbound().starts_with(client_preface()));
    assert_eq!(client_preface(), b"PRI * HTTP/2.0\r\n\r\nSM\r\n\r\n");
    let mut server = Conn::<ServerRole>::new();
    assert_eq!(
        server.ingest(b"GET / HTTP/1.1\r\nhost: x\r\n\r\n"),
        Err(ConnError::BadPreface)
    );
}

#[test]
fn a_request_and_its_answer_arrive() {
    let (mut client, mut server) = pair();
    let id = client.start_request(&get(b"/a"), false).unwrap();
    assert_eq!(id, sid(1));
    assert_eq!(client.send_data(id, b"body", true), Ok(4));
    carry(&mut client, &mut server).unwrap();
    let Some(Event::Headers { stream_id, headers, end_stream, trailing }) = server.poll_event()
    else {
        panic!("headers");
    };
    assert_eq!(stream_id, id);
    assert!(!end_stream && !trailing);
    assert_eq!(name_value(headers.as_slice(), b":path"), Some(b"/a".to_vec()));
    let Some(Event::Data { data, end_stream, .. }) = server.poll_event() else {
        panic!("data");
    };
    assert_eq!(data.as_slice(), b"body");
    assert!(end_stream);
    let answer = [Header::new(b":status", b"200")];
    server.send_response(id, &answer, false).unwrap();
    assert_eq!(server.send_data(id, b"hello", false), Ok(5));
    server.send_trailers(id, &[Header::new(b"x-sum", b"5")]).unwrap();
    carry(&mut server, &mut client).unwrap();
    assert!(matches!(client.poll_event(), Some(Event::Headers { trailing: false, .. })));
    assert!(matches!(client.poll_event(), Some(Event::Data { .. })));
    let Some(Event::Headers { headers, end_stream, trailing, .. }) = client.poll_event() else {
        panic!("trailers");
    };
    assert!(end_stream && trailing);
    assert_eq!(name_value(headers.as_slice(), b"x-sum"), Some(b"5".to_vec()));
    assert!(client.poll_event().is_none());
    assert!(!client.has_stream(id) && !server.has_stream(id));
}

#[test]
fn bytes_may_come_one_by_one() {
    let (mut client, mut server) = pair();
    client.start_request(&get(b"/slow"), true).unwrap();
    let bytes = client.outbound().to_vec();
    for byte in bytes {
        server.ingest(&[byte]).unwrap();
    }
    assert!(matches!(server.poll_event(), Some(Event::Headers { end_stream: true, .. })));
    assert_eq!(server.inbound_len(), 0);
}

#[test]
fn data_waits_for_the_window() {
    let mut client = Conn::<ClientRole>::new();
    let mut server = Conn::<ServerRole>::with_config(Config {
        local_settings: Settings { initial_window_size: 3, ..Settings::defaults() },
        ..Config::default()
    })
    .unwrap();
    carry(&mut client, &mut server).unwrap();
    carry(&mut server, &mut client).unwrap();
    let id = client.start_request(&get(b"/w"), false).unwrap();
    assert_eq!(client.stream_send_window(id).unwrap().available(), 3);
    assert_eq!(client.send_data(id, b"abcdef", true), Ok(3));
    assert_eq!(client.send_data(id, b"def", true), Ok(0));
    carry(&mut client, &mut server).unwrap();
    carry(&mut server, &mut client).unwrap();
    assert!(client.take_window_opened());
    assert_eq!(client.send_data(id, b"def", true), Ok(3));
}

#[test]
fn a_smaller_window_shrinks_open_streams() {
    let (mut client, mut server) = pair();
    let id = client.start_request(&get(b"/s"), false).unwrap();
    carry(&mut client, &mut server).unwrap();
    let before = client.stream_send_window(id).unwrap().available();
    // SETTINGS with an initial window of one byte.
    client.ingest(&[0, 0, 6, 4, 0, 0, 0, 0, 0, 0, 4, 0, 0, 0, 1]).unwrap();
    assert!(before > 1);
    assert_eq!(client.stream_send_window(id).unwrap().available(), 1);
    assert_eq!(client.peer_settings().initial_window_size, 1);
}

#[test]
fn a_reset_stream_is_gone() {
    let (mut client, mut server) = pair();
    let id = client.start_request(&get(b"/r"), false).unwrap();
    carry(&mut client, &mut server).unwrap();
    server.reset_stream(id, ErrorCode::RefusedStream).unwrap();
    carry(&mut server, &mut client).unwrap();
    let mut reset = None;
    while let Some(event) = client.poll_event() {
        if let Event::StreamReset { stream_id, error } = event {
            reset = Some((stream_id, error));
        }
    }
    assert_eq!(reset, Some((id, ErrorCode::RefusedStream)));
    assert_eq!(client.send_data(id, b"late", true), Err(ConnError::BadStream));
}

#[test]
fn a_ping_is_answered() {
    let (mut client, mut server) = pair();
    client.ping([9; 8]).unwrap();
    carry(&mut client, &mut server).unwrap();
    carry(&mut server, &mut client).unwrap();
    let mut answered = false;
    while let Some(event) = client.poll_event() {
        answered |= matches!(event, Event::Ping { ack: true, opaque } if opaque == [9; 8]);
    }
    assert!(answered);
}

#[test]
fn after_goaway_nothing_new_starts() {
    let (mut client, mut server) = pair();
    server.goaway(ErrorCode::NoError, b"later").unwrap();
    assert!(server.goaway_sent());
    let _ = carry(&mut server, &mut client);
    assert_eq!(client.goaway_received(), Some(ErrorCode::NoError));
    assert_eq!(client.start_request(&get(b"/x"), true), Err(ConnError::StreamGoneAway));
}

#[test]
fn a_shared_body_is_not_copied_into_the_ring() {
    let (mut client, _) = pair();
    let id = client.start_request(&get(b"/b"), false).unwrap();
    assert_eq!(client.send_data_shared(id, b"payload", true), Ok(7));
    let mut out = Vec::new();
    let OutboundWrite::Split { prefix_len, body } = client.take_write(4096, &mut out) else {
        panic!("a body follows");
    };
    assert_eq!(prefix_len, out.len());
    assert_eq!(body, b"payload".to_vec());
    assert_eq!(&out[out.len() - 9..], &[0, 0, 7, 0, 1, 0, 0, 0, 1]);
    assert_eq!(client.outbound_len(), 0);
}

#[test]
fn data_in_two_parts_is_one_frame() {
    let (mut client, mut server) = pair();
    let id = client.start_request(&get(b"/p"), false).unwrap();
    assert_eq!(client.send_data_parts(id, b"ab", b"cde", true), Ok(5));
    carry(&mut client, &mut server).unwrap();
    let _ = server.poll_event();
    let Some(Event::Data { data, .. }) = server.poll_event() else {
        panic!("data");
    };
    assert_eq!(data.as_slice(), b"abcde");
}

#[test]
fn a_frame_on_an_idle_stream_ends_the_connection() {
    let (_, mut server) = pair();
    assert_eq!(server.ingest(&[0, 0, 0, 0, 0, 0, 0, 0, 7]), Err(ConnError::Protocol));
    let (_, mut server) = pair();
    // A frame that is longer than was allowed.
    assert_eq!(
        server.ingest(&[0xff, 0xff, 0xff, 0, 0, 0, 0, 0, 1]),
        Err(ConnError::FrameSize)
    );
}

#[test]
fn bad_configurations_are_named() {
    let zero = Config { event_capacity: 0, ..Config::default() };
    assert!(matches!(
        Conn::<ServerRole>::with_config(zero),
        Err(ConfigError::ZeroCapacity("event"))
    ));
    let frame = Config {
        local_settings: Settings { max_frame_size: 1, ..Settings::defaults() },
        ..Config::default()
    };
    assert!(matches!(
        Conn::<ServerRole>::with_config(frame),
        Err(ConfigError::InvalidMaxFrameSize)
    ));
    let window = Config {
        local_settings: Settings { initial_window_size: 0x8000_0000, ..Settings::defaults() },
        ..Config::default()
    };
    assert!(matches!(
        Conn::<ServerRole>::with_config(window),
        Err(ConfigError::InitialWindowOverflow)
    ));
    let small = Config { outbound_capacity: 1, ..Config::default() };
    let Err(error) = Conn::<ClientRole>::with_config(small) else {
        panic!("too small");
    };
    assert!(matches!(error, ConfigError::OutboundTooSmall { actual: 1, .. }));
    assert!(error.text().starts_with("outbound capacity 1 is smaller than required "));
    let sized = ConfigError::OutboundTooSmall { required: 1234, actual: 907 };
    assert_eq!(sized.text(), "outbound capacity 907 is smaller than required 1234");
    assert_eq!(ConfigError::ZeroCapacity("event").text(), "event capacity must be positive");
}

#[test]
fn header_tables_stay_in_step() {
    let mut encoder = Encoder::new(64);
    let mut decoder = Decoder::new(64);
    for round in 0..5u8 {
        let value = [b'a' + round; 10];
        let list = [Header::new(b"x-name", &value), Header::new(b":method", b"GET")];
        let mut wire = Vec::new();
        encoder.encode(&list, &mut wire);
        let mut out = Vec::new();
        assert_eq!(decoder.decode(&wire, &mut out), Ok(()));
        assert_eq!(out[0].value, value.to_vec());
        assert_eq!(out[1].name, b":method".to_vec());
        assert!(decoder.dyn_size() <= 64);
    }
    assert_eq!(decoder.dyn_len(), 1);
    assert_eq!(decoder.dyn_get(0), Some((&b"x-name"[..], &[b'e'; 10][..])));
}

#[test]
fn windows_before_one_that_overflows_have_moved() {
    let (mut client, _server) = pair();
    let mut ids = Vec::new();
    for _ in 0..3 {
        ids.push(client.start_request(&get(b"/w"), false).unwrap());
    }
    let first = client.stream_send_window(ids[0]).unwrap().value;
    // WINDOW_UPDATE takes the window of the second stream to its end.
    let more = (0x7fff_ffff - first) as u32;
    let mut update = vec![0, 0, 4, 8, 0, 0, 0, 0, 3];
    update.extend_from_slice(&more.to_be_bytes());
    client.ingest(&update).unwrap();
    let settings = *client.peer_settings();
    // SETTINGS with an initial window that is larger by one.
    let mut frame = vec![0, 0, 6, 4, 0, 0, 0, 0, 0, 0, 4];
    frame.extend_from_slice(&(settings.initial_window_size + 1).to_be_bytes());
    assert_eq!(client.ingest(&frame), Err(ConnError::FlowControl));
    assert_eq!(client.stream_send_window(ids[0]).unwrap().value, first + 1);
    assert_eq!(client.stream_send_window(ids[1]).unwrap().value, 0x7fff_ffff);
    assert_eq!(client.stream_send_window(ids[2]).unwrap().value, first);
    assert_eq!(client.peer_settings().initial_window_size, settings.initial_window_size);
    assert_eq!(client.inbound_len(), frame.len());
}

#[test]
fn data_beyond_a_stream_is_debited_from_the_connection() {
    let mut client = Conn::<ClientRole>::new();
    let mut server = Conn::<ServerRole>::with_config(Config {
        local_settings: Settings { initial_window_size: 3, ..Settings::defaults() },
        ..Config::default()
    })
    .unwrap();
    carry(&mut client, &mut server).unwrap();
    let id = client.start_request(&get(b"/w"), false).unwrap();
    carry(&mut client, &mut server).unwrap();
    let before = server.recv_window().value;
    let frame = [0, 0, 5, 0, 0, 0, 0, 0, 1, b'h', b'e', b'l', b'l', b'o'];
    assert_eq!(server.ingest(&frame), Err(ConnError::FlowControl));
    assert_eq!(server.recv_window().value, before - 5);
    assert_eq!(server.stream_recv_window(id).unwrap().value, 3);
    assert_eq!(server.inbound_len(), 0);
}

#[test]
fn a_bad_continuation_leaves_its_block_under_way() {
    let (_client, mut server) = pair();
    // HEADERS that goes on, with one field, and CONTINUATION with an index that no field has.
    server.ingest(&[0, 0, 1, 1, 0, 0, 0, 0, 1, 0x82]).unwrap();
    let bad = Err(ConnError::Hpack(DecoderError::BadIndex));
    assert_eq!(server.ingest(&[0, 0, 1, 9, 4, 0, 0, 0, 1, 0x80]), bad);
    // Each try counts as a frame of the block, and there may be 64 of them.
    for _ in 1..64 {
        assert_eq!(server.resume(), bad);
    }
    assert_eq!(server.resume(), Err(ConnError::Overload));
    assert_eq!(server.inbound_len(), 10);
}

#[test]
fn the_first_events_find_places() {
    let mut client = Conn::<ClientRole>::new();
    let mut server = Conn::<ServerRole>::with_config(Config {
        data_capacity: 2,
        ..Config::default()
    })
    .unwrap();
    carry(&mut client, &mut server).unwrap();
    let id = client.start_request(&get(b"/w"), false).unwrap();
    client.send_data(id, b"one", false).unwrap();
    client.send_data(id, b"two", false).unwrap();
    client.send_data(id, b"three", true).unwrap();
    let bytes = client.outbound().to_vec();
    assert_eq!(server.ingest(&bytes), Err(ConnError::Overload));
    let mut kept = Vec::new();
    while let Some(event) = server.poll_event() {
        if let Event::Data { data, .. } = event {
            kept.push(data);
        }
    }
    assert_eq!(kept.len(), 2);
    assert_eq!(kept[0].as_slice(), b"one");
    assert_eq!(kept[1].as_slice(), b"two");
    // The third waits until one of the places is given back.
    assert_eq!(server.resume(), Err(ConnError::Overload));
    kept.remove(0);
    assert_eq!(server.resume(), Ok(()));
    assert!(matches!(server.poll_event(), Some(Event::Data { end_stream: true, .. })));
}

#[test]
fn places_come_back_with_the_events_that_hold_them() {
    let mut client = Conn::<ClientRole>::new();
    let mut server = Conn::<ServerRole>::with_config(Config {
        data_capacity: 1,
        header_capacity: 1,
        ..Config::default()
    })
    .unwrap();
    carry(&mut client, &mut server).unwrap();
    while server.poll_event().is_some() {}
    for round in 0..5 {
        let id = client.start_request(&get(b"/w"), false).unwrap();
        client.send_data(id, b"body", true).unwrap();
        carry(&mut client, &mut server).unwrap();
        match server.poll_event() {
            Some(Event::Headers { headers, .. }) => {
                let fields = server.reclaim_headers(headers);
                assert_eq!(name_value(&fields, b":path"), Some(b"/w".to_vec()));
            },
            _ => panic!("no head in round {round}"),
        }
        match server.poll_event() {
            Some(Event::Data { data, .. }) => assert_eq!(server.reclaim_data(data), b"body"),
            _ => panic!("no data in round {round}"),
        }
        assert!(server.poll_event().is_none());
    }
}

#[test]
fn frames_that_bring_no_event_leave_no_place_behind() {
    let mut client = Conn::<ClientRole>::new();
    let mut server = Conn::<ServerRole>::with_config(Config {
        data_capacity: 1,
        header_capacity: 1,
        ..Config::default()
    })
    .unwrap();
    carry(&mut client, &mut server).unwrap();
    let dead = client.start_request(&get(b"/a"), false).unwrap();
    carry(&mut client, &mut server).unwrap();
    server.reset_stream(dead, ErrorCode::Cancel).unwrap();
    while let Some(event) = server.poll_event() {
        server.reclaim(event);
    }
    // Data for the stream that is gone, again and again.
    for _ in 0..3 {
        client.send_data(dead, b"late", false).unwrap();
        carry(&mut client, &mut server).unwrap();
        assert!(server.poll_event().is_none());
    }
    // Trailers that are refused once they were read.
    for _ in 0..3 {
        let id = client.start_request(&get(b"/b"), false).unwrap();
        carry(&mut client, &mut server).unwrap();
        while let Some(event) = server.poll_event() {
            server.reclaim(event);
        }
        // One field, with an upper-case name.
        let mut frame = vec![0, 0, 5, 1, 5];
        frame.extend_from_slice(&id.as_u32().to_be_bytes());
        frame.extend_from_slice(&[0x00, 1, b'A', 1, b'b']);
        server.ingest(&frame).unwrap();
        assert!(server.poll_event().is_none());
    }
    let live = client.start_request(&get(b"/c"), false).unwrap();
    client.send_data(live, b"in time", true).unwrap();
    carry(&mut client, &mut server).unwrap();
    assert!(matches!(server.poll_event(), Some(Event::Headers { stream_id, .. }) if stream_id == live));
    match server.poll_event() {
        Some(Event::Data { data, end_stream, .. }) => {
            assert_eq!(data.as_slice(), b"in time");
            assert!(end_stream);
        },
        _ => panic!("no data"),
    }
}
