//! What a connection does, as functions of its state.

use crate::bytes;
use crate::collections::Supply;
use crate::h2::config::ValidatedView;
use crate::h2::egress;
use crate::h2::egress::EgressView;
use crate::h2::error;
use crate::h2::error::ConnError;
use crate::h2::event::EventView;
use crate::h2::flow;
use crate::h2::flow::Window;
use crate::h2::frame;
use crate::h2::frame::{
    ErrorCode, Flags, FrameView, HeadView, ParseError, SettingId, Type, HEADER_LEN,
};
use crate::h2::hpack::dynamic_table;
use crate::h2::hpack::dynamic_table::TableView;
use crate::h2::hpack::encoder;
use crate::h2::hpack::encoder::EncoderView;
use crate::h2::hpack::FieldView;
use crate::h2::ingress;
use crate::h2::ingress::{
    BlockView, FrontView, IngressView, PendingKindView, PendingView,
};
use crate::h2::retained_segments::InputView;
use crate::h2::settings;
use crate::h2::settings::Settings;
use crate::h2::stream;
use crate::h2::stream::{Side, State, Stream, TransitionError};
use crate::h2::stream_registry;
use crate::h2::stream_registry::{RegistryView, StreamClass, StreamRecord};
use vstd::prelude::*;

verus! {

/// How often the peer may reset streams.
pub const MAX_RESET_STREAMS: u32 = 100;

/// In how many further frames a block of header fields may go on.
pub const MAX_CONTINUATION_FRAMES: u32 = 64;

/// The bytes of a frame with four bytes of payload.
pub const SHORT_FRAME_LEN: usize = 13;

/// A connection.
#[verifier::ext_equal]
pub struct ConnView {
    pub ingress: IngressView,
    pub egress: EgressView,
    pub settings_received: bool,
    pub goaway_sent: bool,
    pub goaway_received: Option<ErrorCode>,
    pub local: Settings,
    pub peer: Settings,
    pub send_window: Window,
    pub recv_window: Window,
    pub recv_target: u32,
    pub streams: RegistryView,
    pub pending_release: u32,
    pub peer_resets: u32,
    pub opened: bool,
}

/// A connection after something was done, and what came of it.
pub type Outcome = (ConnView, Result<(), ConnError>);

/// What holds of every connection.
pub open spec fn conn_inv(v: ConnView) -> bool {
    &&& ingress::ingress_inv(v.ingress)
    &&& egress::egress_inv(v.egress)
    &&& stream_registry::registry_inv(v.streams)
    &&& settings::settings_valid(v.local)
    &&& settings::settings_valid(v.peer)
    &&& v.recv_target <= Window::MAX
    &&& v.peer_resets <= MAX_RESET_STREAMS
}

impl ConnView {
    pub open spec fn has_stream(self, id: u32) -> bool {
        self.streams.records.contains_key(id)
    }

    pub open spec fn with_streams(self, streams: RegistryView) -> ConnView {
        ConnView { streams, ..self }
    }

    pub open spec fn with_ingress(self, ingress: IngressView) -> ConnView {
        ConnView { ingress, ..self }
    }

    /// With a frame to be sent.
    pub open spec fn sending(self, f: FrameView) -> ConnView {
        ConnView { egress: self.egress.with(frame::frame_wire(f)), ..self }
    }

    /// Without the first bytes of the input.
    pub open spec fn consumed(self, n: int) -> ConnView {
        self.with_ingress(self.ingress.consumed(n))
    }

    /// With the peer's last stream noted.
    pub open spec fn observed(self, id: u32) -> ConnView {
        self.with_streams(RegistryView { last_peer: id, ..self.streams })
    }
}

/// Noting an event. Where it finds no room the place that it holds is free again.
pub open spec fn pushed(v: ConnView, event: EventView) -> Outcome {
    if v.ingress.event_room() {
        (v.with_ingress(v.ingress.with_event(event)), Ok(()))
    } else {
        (v.with_ingress(v.ingress.event_back(event)), Err(ConnError::Overload))
    }
}

/// Telling the peer that a stream is reset.
pub open spec fn rst_sent(v: ConnView, id: u32, error: ErrorCode) -> Outcome {
    if !v.egress.has_room(SHORT_FRAME_LEN as int) {
        (v, Err(ConnError::Overload))
    } else if id == 0 {
        (v, Err(ConnError::Protocol))
    } else {
        (v.sending(FrameView::RstStream { stream: id, error }), Ok(()))
    }
}

/// Resetting a stream and forgetting it.
pub open spec fn rst_evicted(v: ConnView, id: u32, error: ErrorCode) -> Outcome {
    match rst_sent(v, id, error) {
        (next, Err(failure)) => (next, Err(failure)),
        (next, Ok(_)) => (
            next.with_streams(
                stream_registry::evicted(stream_registry::reset_marked(next.streams, id), id),
            ),
            Ok(()),
        ),
    }
}

/// Refusing a stream that the peer wants to open.
pub open spec fn refused(v: ConnView, id: u32) -> Outcome {
    match rst_sent(v, id, ErrorCode::RefusedStream) {
        (next, Err(failure)) => (next, Err(failure)),
        (next, Ok(_)) => (next.observed(id), Ok(())),
    }
}

/// A frame on a stream: the life of the stream goes on, and a stream that is closed is
/// forgotten.
pub open spec fn advanced(v: ConnView, id: u32, ev: stream::Event, side: Side) -> (
    ConnView,
    Result<(), TransitionError>,
) {
    if !v.has_stream(id) {
        (v, Err(TransitionError::Protocol))
    } else {
        let record = v.streams.records[id];
        match stream::transition(record.stream.state, ev, side) {
            Err(failure) => (v, Err(failure)),
            Ok(next) => {
                let put = stream_registry::recorded(
                    v.streams,
                    StreamRecord { stream: Stream { state: next, ..record.stream }, ..record },
                );
                let marked = if next is Closed && ev is RstStream {
                    stream_registry::reset_marked(put, id)
                } else {
                    put
                };
                (
                    v.with_streams(
                        if next is Closed {
                            stream_registry::evicted(marked, id)
                        } else {
                            marked
                        },
                    ),
                    Ok(()),
                )
            },
        }
    }
}

/// The record of a new stream.
pub open spec fn fresh(v: ConnView, s: Stream) -> StreamRecord {
    stream_registry::new_record(s, v.peer.initial_window_size, v.local.initial_window_size)
}

/// The number of streams that the peer may have open.
pub open spec fn peer_stream_limit(v: ConnView) -> nat {
    (match v.local.max_concurrent_streams {
        Some(limit) => limit,
        None => u32::MAX,
    }) as nat
}

/// The number of streams that this end may have open.
pub open spec fn local_stream_limit(v: ConnView) -> nat {
    match v.peer.max_concurrent_streams {
        Some(limit) => limit as nat,
        None => usize::MAX as nat,
    }
}

/// Whether the peer may open another stream.
pub open spec fn accepts_peer(v: ConnView, server: bool) -> bool {
    stream_registry::accepts_peer(v.streams, server, peer_stream_limit(v))
}

/// A stream whose peer has sent its header fields.
pub open spec fn headers_noted(v: ConnView, id: u32) -> ConnView {
    if v.has_stream(id) {
        let record = v.streams.records[id];
        v.with_streams(
            stream_registry::recorded(
                v.streams,
                StreamRecord {
                    stream: Stream { peer_headers_received: true, ..record.stream },
                    ..record
                },
            ),
        )
    } else {
        v
    }
}

/// A block of header fields is given up, and its place is free again.
pub open spec fn block_dropped(v: ConnView) -> ConnView {
    v.with_ingress(v.ingress.headers_back())
}

/// Data is given up, and its place is free again.
pub open spec fn data_dropped(v: ConnView) -> ConnView {
    v.with_ingress(v.ingress.data_back())
}

/// A block of header fields for a stream was read to its end. Where it is not delivered its
/// place is free again.
pub open spec fn headers_done(
    v: ConnView,
    id: u32,
    block: BlockView,
    end_stream: bool,
    trailing: bool,
) -> Outcome {
    if block.invalid {
        rst_evicted(block_dropped(v), id, ErrorCode::ProtocolError)
    } else {
        match advanced(v, id, stream::Event::Headers { end_stream }, Side::Remote) {
            (next, Err(TransitionError::Protocol)) => (
                block_dropped(next),
                Err(ConnError::Protocol),
            ),
            (next, Err(TransitionError::StreamClosed)) => rst_evicted(
                block_dropped(next),
                id,
                ErrorCode::StreamClosed,
            ),
            (next, Ok(_)) => pushed(
                headers_noted(next, id),
                EventView::Headers { stream: id, fields: block.fields, end_stream, trailing },
            ),
        }
    }
}

/// A promise of a stream was read to its end. Only a promise that came in several frames
/// marks the stream as reset when its fields are bad.
pub open spec fn promise_done(
    v: ConnView,
    server: bool,
    id: u32,
    promised: u32,
    block: BlockView,
    in_parts: bool,
) -> Outcome {
    if block.invalid {
        if in_parts {
            rst_evicted(block_dropped(v), promised, ErrorCode::ProtocolError)
        } else {
            rst_sent(block_dropped(v), promised, ErrorCode::ProtocolError)
        }
    } else if !stream_registry::peer_initiated(server, promised) || promised
        <= v.streams.last_peer {
        (block_dropped(v), Err(ConnError::Protocol))
    } else if !accepts_peer(v, server) {
        refused(block_dropped(v), promised)
    } else if v.has_stream(promised) {
        (block_dropped(v), Err(ConnError::Protocol))
    } else {
        pushed(
            reserved(v, promised),
            EventView::PushPromise { stream: id, promised, fields: block.fields },
        )
    }
}

/// With a stream that the peer has promised.
pub open spec fn reserved(v: ConnView, promised: u32) -> ConnView {
    let streams = RegistryView {
        records: v.streams.records.insert(promised, promised_record(v, promised)),
        ..v.streams
    };
    v.with_streams(streams).observed(promised)
}

/// The record of a promised stream.
pub open spec fn promised_record(v: ConnView, promised: u32) -> StreamRecord {
    fresh(
        v,
        Stream {
            id: stream::id_of(promised),
            state: State::ReservedRemote,
            peer_headers_received: false,
        },
    )
}

/// With a stream that the peer has opened.
pub open spec fn peer_opened(v: ConnView, id: u32) -> ConnView {
    v.with_streams(
        RegistryView { records: v.streams.records.insert(id, opened_record(v, id)), ..v.streams },
    ).observed(id)
}

/// The record of a stream that was just opened.
pub open spec fn opened_record(v: ConnView, id: u32) -> StreamRecord {
    fresh(
        v,
        Stream { id: stream::id_of(id), state: State::Idle, peer_headers_received: false },
    )
}

/// A part of the input: the bytes, and whether they lie in one chunk.
pub struct PieceView {
    pub bytes: Seq<u8>,
    pub contiguous: bool,
}

/// A HEADERS frame on a stream that is there.
#[verifier::opaque]
pub open spec fn headers_read(
    v: ConnView,
    server: bool,
    id: u32,
    end_stream: bool,
    end_headers: bool,
    piece: PieceView,
    place: bool,
) -> Outcome {
    let trailing = v.has_stream(id) && v.streams.records[id].stream.peer_headers_received;
    if end_headers {
        match ingress::completed(
            v.ingress,
            piece.bytes,
            piece.contiguous,
            server,
            trailing,
            place,
        ) {
            (next, Err(failure)) => (v.with_ingress(next), Err(failure)),
            (next, Ok(block)) => headers_done(
                v.with_ingress(next),
                id,
                block,
                end_stream,
                trailing,
            ),
        }
    } else {
        match ingress::begun(v.ingress, piece.bytes, server, trailing, place) {
            (next, Err(failure)) => (v.with_ingress(next), Err(failure)),
            (next, Ok(_)) => (
                v.with_ingress(
                    IngressView {
                        pending: Some(
                            PendingView {
                                stream: id,
                                kind: PendingKindView::Headers { end_stream, trailing },
                                continuations: 0,
                            },
                        ),
                        ..next
                    },
                ),
                Ok(()),
            ),
        }
    }
}

/// A HEADERS frame.
#[verifier::opaque]
pub open spec fn headers_handled(
    v: ConnView,
    server: bool,
    id: u32,
    end_stream: bool,
    end_headers: bool,
    piece: PieceView,
    place: bool,
) -> Outcome {
    match stream_registry::class_of(v.streams, server, id) {
        StreamClass::Connection => (v, Err(ConnError::Protocol)),
        StreamClass::ClosedEnd => (v, Err(ConnError::StreamClosed)),
        StreamClass::ClosedRst => rst_sent(v, id, ErrorCode::StreamClosed),
        StreamClass::Idle => if !stream_registry::peer_initiated(server, id) {
            (v, Err(ConnError::Protocol))
        } else if v.goaway_sent {
            rst_sent(v, id, ErrorCode::RefusedStream)
        } else if !accepts_peer(v, server) {
            refused(v, id)
        } else {
            headers_read(peer_opened(v, id), server, id, end_stream, end_headers, piece, place)
        },
        StreamClass::Active => headers_read(v, server, id, end_stream, end_headers, piece, place),
    }
}

/// A PUSH_PROMISE frame.
#[verifier::opaque]
pub open spec fn promise_handled(
    v: ConnView,
    server: bool,
    id: u32,
    promised: u32,
    end_headers: bool,
    piece: PieceView,
    place: bool,
) -> Outcome {
    if server {
        (v, Err(ConnError::Protocol))
    } else if end_headers {
        match ingress::completed(v.ingress, piece.bytes, piece.contiguous, true, false, place) {
            (next, Err(failure)) => (v.with_ingress(next), Err(failure)),
            (next, Ok(block)) => promise_done(
                v.with_ingress(next),
                server,
                id,
                promised,
                block,
                false,
            ),
        }
    } else {
        match ingress::begun(v.ingress, piece.bytes, true, false, place) {
            (next, Err(failure)) => (v.with_ingress(next), Err(failure)),
            (next, Ok(_)) => (
                v.with_ingress(
                    IngressView {
                        pending: Some(
                            PendingView {
                                stream: id,
                                kind: PendingKindView::PushPromise { promised },
                                continuations: 0,
                            },
                        ),
                        ..next
                    },
                ),
                Ok(()),
            ),
        }
    }
}

/// With one more frame of a block counted.
pub open spec fn counted(v: ConnView, pending: PendingView) -> ConnView {
    v.with_ingress(
        IngressView {
            pending: Some(
                PendingView {
                    continuations: (if pending.continuations == u32::MAX {
                        u32::MAX
                    } else {
                        (pending.continuations + 1) as u32
                    }),
                    ..pending
                },
            ),
            ..v.ingress
        },
    )
}

/// A CONTINUATION frame.
#[verifier::opaque]
pub open spec fn continuation_handled(
    v: ConnView,
    server: bool,
    id: u32,
    end_headers: bool,
    fragment: Seq<u8>,
) -> Outcome {
    match v.ingress.pending {
        None => (v, Err(ConnError::Continuation)),
        Some(pending) => if pending.stream != id || (fragment.len() == 0 && !end_headers) {
            (v, Err(ConnError::Continuation))
        } else if pending.continuations >= MAX_CONTINUATION_FRAMES {
            (counted(v, pending), Err(ConnError::Overload))
        } else {
            let c = counted(v, pending);
            match ingress::continued(c.ingress, fragment) {
                (next, Err(failure)) => (c.with_ingress(next), Err(failure)),
                (next, Ok(_)) => if end_headers {
                    block_finished(c.with_ingress(next), server, pending)
                } else {
                    (c.with_ingress(next), Ok(()))
                },
            }
        },
    }
}

/// A block that came in several frames has come to its end.
pub open spec fn block_finished(v: ConnView, server: bool, pending: PendingView) -> Outcome {
    let (next, result) = ingress::finished(v.ingress);
    let w = v.with_ingress(IngressView { pending: None, ..next });
    match result {
        Err(failure) => (w, Err(failure)),
        Ok(block) => match pending.kind {
            PendingKindView::Headers { end_stream, trailing } => headers_done(
                w,
                pending.stream,
                block,
                end_stream,
                trailing,
            ),
            PendingKindView::PushPromise { promised } => promise_done(
                w,
                server,
                pending.stream,
                promised,
                block,
                true,
            ),
        },
    }
}

/// The larger of half a window and one.
pub open spec fn threshold(window: u32) -> u32 {
    if window / 2 > 1 {
        window / 2
    } else {
        1
    }
}

/// With more room announced to the peer.
pub open spec fn released(v: ConnView, id: u32, increment: Option<u32>) -> ConnView {
    match increment {
        Some(n) => v.sending(FrameView::WindowUpdate { stream: id, increment: n }),
        None => v,
    }
}

/// With the windows of the connection and of a stream as data has left them.
pub open spec fn windows_received(v: ConnView, id: u32, r: flow::Received) -> ConnView {
    let record = v.streams.records[id];
    let w = ConnView {
        recv_window: Window { value: r.conn.window },
        pending_release: r.conn.pending,
        streams: stream_registry::recorded(
            v.streams,
            StreamRecord {
                recv_window: Window { value: r.stream.window },
                pending_release: r.stream.pending,
                ..record
            },
        ),
        ..v
    };
    released(released(w, 0, r.conn.increment), id, r.stream.increment)
}

/// With a stream's record replaced.
pub open spec fn with_record(v: ConnView, record: StreamRecord) -> ConnView {
    v.with_streams(stream_registry::recorded(v.streams, record))
}

/// With the windows of the connection and of a stream as data leaves them that cannot be
/// received. The connection's window is debited first, then that of the stream; then what was
/// used is given back to the one and to the other. What was done before a step that fails
/// stays done.
pub open spec fn windows_refused(v: ConnView, id: u32, n: int) -> ConnView {
    let record = v.streams.records[id];
    if n > v.recv_window.room() {
        v
    } else {
        let w = ConnView { recv_window: Window { value: (v.recv_window.value - n) as i32 }, ..v };
        if n > record.recv_window.room() {
            w
        } else {
            let debited = StreamRecord {
                recv_window: Window { value: (record.recv_window.value - n) as i32 },
                ..record
            };
            match flow::received(
                v.recv_window.value,
                v.pending_release,
                threshold(v.recv_target),
                n,
                true,
            ) {
                Err(_) => with_record(ConnView { pending_release: 0, ..w }, debited),
                Ok(conn) => with_record(
                    released(
                        ConnView {
                            recv_window: Window { value: conn.window },
                            pending_release: conn.pending,
                            ..v
                        },
                        0,
                        conn.increment,
                    ),
                    StreamRecord { pending_release: 0, ..debited },
                ),
            }
        }
    }
}

/// A DATA frame on a stream that is there.
pub open spec fn data_received(v: ConnView, id: u32, end_stream: bool, data: Seq<u8>) -> Outcome {
    let record = v.streams.records[id];
    match flow::received_pair(
        v.recv_window,
        record.recv_window,
        data.len() as int,
        (v.pending_release, record.pending_release),
        (threshold(v.recv_target), threshold(v.local.initial_window_size)),
        true,
    ) {
        Err(_) => (
            data_dropped(windows_refused(v, id, data.len() as int)),
            Err(ConnError::FlowControl),
        ),
        Ok(r) => match advanced(
            windows_received(v, id, r),
            id,
            stream::Event::Data { end_stream },
            Side::Remote,
        ) {
            (next, Err(TransitionError::Protocol)) => (
                data_dropped(next),
                Err(ConnError::Protocol),
            ),
            (next, Err(TransitionError::StreamClosed)) => rst_evicted(
                data_dropped(next),
                id,
                ErrorCode::StreamClosed,
            ),
            (next, Ok(_)) => pushed(next, EventView::Data { stream: id, data, end_stream }),
        },
    }
}

/// A DATA frame.
#[verifier::opaque]
pub open spec fn data_handled(
    v: ConnView,
    server: bool,
    id: u32,
    end_stream: bool,
    data: Seq<u8>,
) -> Outcome {
    match stream_registry::class_of(v.streams, server, id) {
        StreamClass::Connection => (data_dropped(v), Err(ConnError::Protocol)),
        StreamClass::Idle => (data_dropped(v), Err(ConnError::Protocol)),
        StreamClass::ClosedEnd => (data_dropped(v), Err(ConnError::StreamClosed)),
        StreamClass::ClosedRst => rst_sent(data_dropped(v), id, ErrorCode::StreamClosed),
        StreamClass::Active => data_received(v, id, end_stream, data),
    }
}

/// What becomes of a window that is to grow.
pub open spec fn grown(w: Window, increment: u32) -> Result<Window, ConnError> {
    if increment == 0 {
        Err(ConnError::Protocol)
    } else if increment > Window::MAX || w.value + increment > Window::MAX {
        Err(ConnError::FlowControl)
    } else {
        Ok(Window { value: (w.value + increment) as i32 })
    }
}

/// A WINDOW_UPDATE frame.
pub open spec fn update_handled(v: ConnView, server: bool, id: u32, increment: u32) -> Outcome {
    match stream_registry::class_of(v.streams, server, id) {
        StreamClass::Connection => match grown(v.send_window, increment) {
            Err(failure) => (v, Err(failure)),
            Ok(w) => (ConnView { send_window: w, opened: true, ..v }, Ok(())),
        },
        StreamClass::Idle => (v, Err(ConnError::Protocol)),
        StreamClass::ClosedRst | StreamClass::ClosedEnd => (v, Ok(())),
        StreamClass::Active => {
            let record = v.streams.records[id];
            match grown(record.send_window, increment) {
                Err(failure) => (v, Err(failure)),
                Ok(w) => (
                    ConnView {
                        streams: stream_registry::recorded(
                            v.streams,
                            StreamRecord { send_window: w, ..record },
                        ),
                        opened: true,
                        ..v
                    },
                    Ok(()),
                ),
            }
        },
    }
}

/// A RST_STREAM frame.
pub open spec fn rst_handled(v: ConnView, server: bool, id: u32, error: ErrorCode) -> Outcome {
    match stream_registry::class_of(v.streams, server, id) {
        StreamClass::Connection | StreamClass::Idle => (v, Err(ConnError::Protocol)),
        StreamClass::ClosedRst | StreamClass::ClosedEnd => (v, Ok(())),
        StreamClass::Active => if v.peer_resets >= MAX_RESET_STREAMS {
            (v, Err(ConnError::Overload))
        } else {
            match pushed(
                advanced(v, id, stream::Event::RstStream, Side::Remote).0,
                EventView::StreamReset { stream: id, error },
            ) {
                (next, Err(failure)) => (next, Err(failure)),
                (next, Ok(_)) => (
                    ConnView { peer_resets: (v.peer_resets + 1) as u32, ..next },
                    Ok(()),
                ),
            }
        },
    }
}

/// Whether parameters say how large the table for header fields may be.
pub open spec fn sets_table_size(params: Seq<(Option<SettingId>, u32)>) -> bool {
    exists|i: int|
        0 <= i < params.len() && #[trigger] params[i].0 == Some(SettingId::HeaderTableSize)
}

/// A SETTINGS frame with parameters; the frame is `total` bytes long. Where a window cannot
/// move, those before it in the `order` of the streams have moved, and nothing else is done.
pub open spec fn settings_applied(
    v: ConnView,
    params: Seq<(Option<SettingId>, u32)>,
    total: int,
    order: Seq<u32>,
) -> Outcome {
    if !v.egress.has_room(HEADER_LEN as int) {
        (v, Err(ConnError::Overload))
    } else {
        match settings::applied_all(v.peer, params) {
            Err(failure) => (v, Err(failure)),
            Ok(next) => {
                let delta = next.initial_window_size - v.peer.initial_window_size;
                if !stream_registry::windows_move(v.streams.records, delta) {
                    let walk = stream_registry::walk(v.streams.records, order);
                    let (records, _) = stream_registry::moved_along(v.streams.records, walk, delta);
                    (
                        v.with_streams(RegistryView { records, ..v.streams }),
                        Err(ConnError::FlowControl),
                    )
                } else {
                    let w = ConnView {
                        peer: next,
                        streams: RegistryView {
                            records: stream_registry::windows_moved(v.streams.records, delta),
                            ..v.streams
                        },
                        egress: if sets_table_size(params) {
                            EgressView {
                                encoder: encoder::resized_encoder(
                                    v.egress.encoder,
                                    dynamic_table::table_size(next.header_table_size) as nat,
                                ),
                                ..v.egress
                            }
                        } else {
                            v.egress
                        },
                        opened: v.opened || delta > 0,
                        ..v
                    };
                    pushed(
                        w.consumed(total).sending(
                            FrameView::Settings { ack: true, params: Seq::empty() },
                        ),
                        EventView::SettingsApplied,
                    )
                }
            },
        }
    }
}

/// What follows when a frame was dealt with: its bytes are done with.
pub open spec fn then_consumed(o: Outcome, total: int) -> Outcome {
    match o.1 {
        Ok(_) => (o.0.consumed(total), Ok(())),
        Err(failure) => o,
    }
}

/// A failure to read a frame.
pub open spec fn unreadable(v: ConnView, failure: ParseError) -> Outcome {
    (v, Err(error::parse_failure(failure)))
}

/// A SETTINGS frame as it stands in the input.
#[verifier::opaque]
pub open spec fn settings_frame(
    v: ConnView,
    h: HeadView,
    payload: Seq<u8>,
    order: Seq<u32>,
) -> Outcome {
    let total = HEADER_LEN + h.length;
    if h.stream != 0 {
        unreadable(v, ParseError::Protocol)
    } else if (frame::flag(h.flags, Flags::ACK) && h.length != 0) || h.length % 6 != 0 {
        unreadable(v, ParseError::FrameSize)
    } else if frame::flag(h.flags, Flags::ACK) {
        then_consumed(
            pushed(ConnView { settings_received: true, ..v }, EventView::SettingsAck),
            total,
        )
    } else {
        settings_applied(v, frame::settings_in(payload), total, order)
    }
}

/// A PING frame as it stands in the input.
#[verifier::opaque]
pub open spec fn ping_frame(v: ConnView, h: HeadView, payload: Seq<u8>) -> Outcome {
    let total = HEADER_LEN + h.length;
    let ack = frame::flag(h.flags, Flags::ACK);
    if h.length != 8 {
        unreadable(v, ParseError::FrameSize)
    } else if h.stream != 0 {
        unreadable(v, ParseError::Protocol)
    } else if ack {
        then_consumed(pushed(v, EventView::Ping { ack: true, opaque: payload }), total)
    } else if !v.egress.has_room(HEADER_LEN + 8) {
        (v, Err(ConnError::Overload))
    } else {
        pushed(
            v.consumed(total).sending(FrameView::Ping { ack: true, opaque: payload }),
            EventView::Ping { ack: false, opaque: payload },
        )
    }
}

/// A GOAWAY frame as it stands in the input.
#[verifier::opaque]
pub open spec fn goaway_frame(v: ConnView, h: HeadView, payload: Seq<u8>, place: bool) -> Outcome {
    let total = HEADER_LEN + h.length;
    if h.length < 8 {
        unreadable(v, ParseError::FrameSize)
    } else {
        match frame::go_away_of(h, payload) {
            Err(failure) => unreadable(v, failure),
            Ok(f) => if !v.ingress.data_places.gives(place) {
                (v, Err(ConnError::Overload))
            } else {
                then_consumed(
                    pushed(
                        ConnView {
                            goaway_received: Some(f->GoAway_error),
                            ..v.with_ingress(v.ingress.asked_for_data(true))
                        },
                        EventView::GoAway {
                            last: f->last,
                            error: f->GoAway_error,
                            debug: f->debug,
                        },
                    ),
                    total,
                )
            },
        }
    }
}

/// A WINDOW_UPDATE frame as it stands in the input.
#[verifier::opaque]
pub open spec fn update_frame(
    v: ConnView,
    server: bool,
    h: HeadView,
    payload: Seq<u8>,
) -> Outcome {
    let total = HEADER_LEN + h.length;
    match frame::window_update_of(h, payload) {
        Err(failure) => unreadable(v, failure),
        Ok(f) => update_handled(v.consumed(total), server, h.stream, f->increment),
    }
}

/// A RST_STREAM frame as it stands in the input.
#[verifier::opaque]
pub open spec fn rst_frame(v: ConnView, server: bool, h: HeadView, payload: Seq<u8>) -> Outcome {
    let total = HEADER_LEN + h.length;
    match frame::rst_stream_of(h, payload) {
        Err(failure) => unreadable(v, failure),
        Ok(f) => rst_handled(v.consumed(total), server, h.stream, f->RstStream_error),
    }
}

/// A PRIORITY frame as it stands in the input.
#[verifier::opaque]
pub open spec fn priority_frame(v: ConnView, h: HeadView, payload: Seq<u8>) -> Outcome {
    match frame::priority_of(h, payload) {
        Err(failure) => unreadable(v, failure),
        Ok(_) => (v.consumed(HEADER_LEN + h.length), Ok(())),
    }
}

/// The part of the input that starts `at` bytes into the payload of its first frame.
pub open spec fn piece_at(v: ConnView, at: int, s: Seq<u8>) -> PieceView {
    PieceView {
        bytes: s,
        contiguous: ingress::one_chunk(v.ingress.input, HEADER_LEN + at, s.len() as int),
    }
}

/// How many bytes of a payload come before what was padded.
pub open spec fn pad_len(flags: u8) -> int {
    if frame::flag(flags, Flags::PADDED) {
        1
    } else {
        0
    }
}

/// A HEADERS frame as it stands in the input.
#[verifier::opaque]
pub open spec fn headers_frame(
    v: ConnView,
    server: bool,
    h: HeadView,
    payload: Seq<u8>,
    place: bool,
) -> Outcome {
    let total = HEADER_LEN + h.length;
    if h.stream == 0 {
        unreadable(v, ParseError::Protocol)
    } else if !v.egress.has_room(SHORT_FRAME_LEN as int) {
        (v, Err(ConnError::Overload))
    } else {
        match frame::unpadded(h.flags, payload) {
            None => unreadable(v, ParseError::Padding),
            Some(s) => {
                let skip: int = if frame::flag(h.flags, Flags::PRIORITY) {
                    5
                } else {
                    0
                };
                if s.len() < skip {
                    unreadable(v, ParseError::FrameSize)
                } else {
                    then_consumed(
                        headers_handled(
                            v,
                            server,
                            h.stream,
                            frame::flag(h.flags, Flags::END_STREAM),
                            frame::flag(h.flags, Flags::END_HEADERS),
                            piece_at(
                                v,
                                pad_len(h.flags) + skip,
                                s.subrange(skip, s.len() as int),
                            ),
                            place,
                        ),
                        total,
                    )
                }
            },
        }
    }
}

/// A DATA frame as it stands in the input.
#[verifier::opaque]
pub open spec fn data_frame(
    v: ConnView,
    server: bool,
    h: HeadView,
    payload: Seq<u8>,
    place: bool,
) -> Outcome {
    let total = HEADER_LEN + h.length;
    if h.stream == 0 {
        unreadable(v, ParseError::Protocol)
    } else if !v.egress.has_room(2 * SHORT_FRAME_LEN) {
        (v, Err(ConnError::Overload))
    } else {
        match frame::unpadded(h.flags, payload) {
            None => unreadable(v, ParseError::Padding),
            Some(s) => if !v.ingress.data_places.gives(place) {
                (v, Err(ConnError::Overload))
            } else {
                data_handled(
                    v.with_ingress(v.ingress.asked_for_data(true)).consumed(total),
                    server,
                    h.stream,
                    frame::flag(h.flags, Flags::END_STREAM),
                    s,
                )
            },
        }
    }
}

/// A PUSH_PROMISE frame as it stands in the input.
#[verifier::opaque]
pub open spec fn promise_frame(
    v: ConnView,
    server: bool,
    h: HeadView,
    payload: Seq<u8>,
    place: bool,
) -> Outcome {
    let total = HEADER_LEN + h.length;
    if h.stream == 0 {
        unreadable(v, ParseError::Protocol)
    } else if !v.egress.has_room(SHORT_FRAME_LEN as int) {
        (v, Err(ConnError::Overload))
    } else {
        match frame::unpadded(h.flags, payload) {
            None => unreadable(v, ParseError::Padding),
            Some(s) => if s.len() < 4 {
                unreadable(v, ParseError::FrameSize)
            } else {
                then_consumed(
                    promise_handled(
                        v,
                        server,
                        h.stream,
                        (bytes::be32(s, 0) % 0x8000_0000) as u32,
                        frame::flag(h.flags, Flags::END_HEADERS),
                        piece_at(v, pad_len(h.flags) + 4, s.subrange(4, s.len() as int)),
                        place,
                    ),
                    total,
                )
            },
        }
    }
}

/// A CONTINUATION frame as it stands in the input.
#[verifier::opaque]
pub open spec fn continuation_frame(
    v: ConnView,
    server: bool,
    h: HeadView,
    payload: Seq<u8>,
) -> Outcome {
    if h.stream == 0 {
        unreadable(v, ParseError::Protocol)
    } else if !v.egress.has_room(SHORT_FRAME_LEN as int) {
        (v, Err(ConnError::Overload))
    } else {
        then_consumed(
            continuation_handled(
                v,
                server,
                h.stream,
                frame::flag(h.flags, Flags::END_HEADERS),
                payload,
            ),
            HEADER_LEN + h.length,
        )
    }
}

/// Whether a frame can bring an event.
pub open spec fn brings_event(h: HeadView) -> bool {
    match h.kind {
        Type::Settings | Type::Ping | Type::GoAway | Type::Data | Type::RstStream => true,
        Type::Headers | Type::PushPromise | Type::Continuation => frame::flag(
            h.flags,
            Flags::END_HEADERS,
        ),
        Type::WindowUpdate | Type::Priority => false,
    }
}

/// The payload of the first frame of the input.
pub open spec fn payload_of(v: ConnView, h: HeadView) -> Seq<u8> {
    v.ingress.input.bytes().subrange(HEADER_LEN as int, HEADER_LEN + h.length)
}

/// What is left open of one frame: whether the pool that it needs has a place, once the pool
/// has given out as many as it has; and the order in which the streams are walked.
pub struct Chance {
    pub place: bool,
    pub order: Seq<u32>,
}

/// The first frame of the input; `chance` says what is left open.
pub open spec fn frame_handled(v: ConnView, server: bool, h: HeadView, chance: Chance) -> Outcome {
    let payload = payload_of(v, h);
    if v.ingress.pending is Some && !(h.kind is Continuation) {
        (v, Err(ConnError::Continuation))
    } else if brings_event(h) && !v.ingress.event_room() {
        (v, Err(ConnError::Overload))
    } else {
        match h.kind {
            Type::Settings => settings_frame(v, h, payload, chance.order),
            Type::Ping => ping_frame(v, h, payload),
            Type::GoAway => goaway_frame(v, h, payload, chance.place),
            Type::WindowUpdate => update_frame(v, server, h, payload),
            Type::Headers => headers_frame(v, server, h, payload, chance.place),
            Type::Data => data_frame(v, server, h, payload, chance.place),
            Type::Continuation => continuation_frame(v, server, h, payload),
            Type::RstStream => rst_frame(v, server, h, payload),
            Type::PushPromise => promise_frame(v, server, h, payload, chance.place),
            Type::Priority => priority_frame(v, h, payload),
        }
    }
}

/// All frames of the input; `chances` says of each what is left open.
pub open spec fn driven(v: ConnView, server: bool, chances: Seq<Chance>) -> Outcome
    decreases v.ingress.input.bytes().len(),
{
    match ingress::front(v.ingress.input.bytes(), v.local.max_frame_size) {
        Err(failure) => (v, Err(failure)),
        Ok(FrontView::Wait) => (v, Ok(())),
        Ok(FrontView::Unknown(total)) => {
            let next = v.consumed(total as int);
            if next.ingress.input.bytes().len() < v.ingress.input.bytes().len() {
                driven(next, server, chances.drop_first())
            } else {
                (next, Ok(()))
            }
        },
        Ok(FrontView::Frame(h)) => match frame_handled(v, server, h, chances[0]) {
            (next, Err(failure)) => (next, Err(failure)),
            (next, Ok(_)) => if next.ingress.input.bytes().len() < v.ingress.input.bytes().len() {
                driven(next, server, chances.drop_first())
            } else {
                (next, Ok(()))
            },
        },
    }
}

/// The input: the preface, and all frames.
pub open spec fn resumed(v: ConnView, server: bool, chances: Seq<Chance>) -> Outcome {
    match ingress::preface_accepted(v.ingress) {
        (next, Err(failure)) => (v.with_ingress(next), Err(failure)),
        (next, Ok(false)) => (v.with_ingress(next), Ok(())),
        (next, Ok(true)) => driven(v.with_ingress(next), server, chances),
    }
}

/// Bytes from the peer.
pub open spec fn ingested(v: ConnView, server: bool, more: Seq<u8>, chances: Seq<Chance>) -> Outcome {
    if !v.ingress.input.has_room(more.len() as int) {
        (v, Err(ConnError::Overload))
    } else {
        resumed(
            v.with_ingress(IngressView { input: v.ingress.input.with(more), ..v.ingress }),
            server,
            chances,
        )
    }
}

/// Sending header fields on a stream, this end's part of its life going on.
pub open spec fn fields_sent(
    v: ConnView,
    id: u32,
    list: Seq<FieldView>,
    end_stream: bool,
) -> Outcome {
    match egress::headers_sent(v.egress, id, list, end_stream, v.peer.max_frame_size as int) {
        (next, Err(failure)) => (ConnView { egress: next, ..v }, Err(failure)),
        (next, Ok(_)) => match advanced(
            ConnView { egress: next, ..v },
            id,
            stream::Event::Headers { end_stream },
            Side::Local,
        ) {
            (done, Err(_)) => (done, Err(ConnError::Protocol)),
            (done, Ok(_)) => (done, Ok(())),
        },
    }
}

/// Sending a response, or trailers.
#[verifier::opaque]
pub open spec fn response_sent(
    v: ConnView,
    id: u32,
    list: Seq<FieldView>,
    end_stream: bool,
) -> Outcome {
    if !v.has_stream(id) {
        (v, Err(ConnError::BadStream))
    } else {
        fields_sent(v, id, list, end_stream)
    }
}

/// Starting a request on a new stream.
#[verifier::opaque]
pub open spec fn request_started(v: ConnView, list: Seq<FieldView>, end_stream: bool) -> (
    ConnView,
    Result<u32, ConnError>,
) {
    if v.goaway_received is Some || v.goaway_sent {
        (v, Err(ConnError::StreamGoneAway))
    } else if !stream_registry::opens_local(v.streams, false, local_stream_limit(v)) {
        (v, Err(ConnError::StreamLimit))
    } else {
        match v.streams.next_local {
            None => (v, Err(ConnError::StreamLimit)),
            Some(id) => {
                let named = v.with_streams(
                    RegistryView { next_local: stream::following(id), ..v.streams },
                );
                if v.has_stream(id) || id == 0 {
                    (named, Err(ConnError::StreamLimit))
                } else {
                    let opened = named.with_streams(
                        RegistryView {
                            records: named.streams.records.insert(id, opened_record(v, id)),
                            ..named.streams
                        },
                    );
                    match fields_sent(opened, id, list, end_stream) {
                        (next, Err(failure)) => (next, Err(failure)),
                        (next, Ok(_)) => (next, Ok(id)),
                    }
                }
            },
        }
    }
}

/// How much of a body is sent: not more than both windows and a frame of the peer let through.
pub open spec fn data_share(v: ConnView, id: u32, len: int) -> int {
    flow::min(
        flow::min(
            len,
            flow::pair_room(v.send_window, v.streams.records[id].send_window),
        ),
        v.peer.max_frame_size as int,
    )
}

/// With both windows debited.
pub open spec fn debited(v: ConnView, id: u32, n: int) -> ConnView {
    let record = v.streams.records[id];
    ConnView {
        send_window: Window { value: (v.send_window.value - n) as i32 },
        streams: stream_registry::recorded(
            v.streams,
            StreamRecord {
                send_window: Window { value: (record.send_window.value - n) as i32 },
                ..record
            },
        ),
        ..v
    }
}

/// What is sent of a body of `len` bytes: how many bytes, and whether they end the stream.
/// `None` while a window is closed.
pub open spec fn data_planned(v: ConnView, id: u32, len: int, end_stream: bool) -> (
    ConnView,
    Result<Option<(int, bool)>, ConnError>,
) {
    if !v.has_stream(id) {
        (v, Err(ConnError::BadStream))
    } else if flow::pair_room(v.send_window, v.streams.records[id].send_window) == 0 && len != 0 {
        (v, Ok(None))
    } else {
        let n = data_share(v, id, len);
        let ends = end_stream && n == len;
        if !v.egress.has_room(HEADER_LEN + n) {
            (v, Err(ConnError::Overload))
        } else {
            match advanced(
                debited(v, id, n),
                id,
                stream::Event::Data { end_stream: ends },
                Side::Local,
            ) {
                (next, Err(_)) => (next, Err(ConnError::Protocol)),
                (next, Ok(_)) => (next, Ok(Some((n, ends)))),
            }
        }
    }
}

/// Sending a body as far as it goes; the result says how many bytes went.
#[verifier::opaque]
pub open spec fn data_sent(v: ConnView, id: u32, body: Seq<u8>, end_stream: bool) -> (
    ConnView,
    Result<usize, ConnError>,
) {
    match data_planned(v, id, body.len() as int, end_stream) {
        (next, Err(failure)) => (next, Err(failure)),
        (next, Ok(None)) => (next, Ok(0)),
        (next, Ok(Some((n, ends)))) => (
            ConnView {
                egress: next.egress.with(
                    egress::data_head(id, ends, n as u32) + body.subrange(0, n),
                ),
                ..next
            },
            Ok(n as usize),
        ),
    }
}

/// Sending a body that is not copied into the ring.
#[verifier::opaque]
pub open spec fn shared_sent(v: ConnView, id: u32, body: Seq<u8>, end_stream: bool) -> (
    ConnView,
    Result<usize, ConnError>,
) {
    match data_planned(v, id, body.len() as int, end_stream) {
        (next, Err(failure)) => (next, Err(failure)),
        (next, Ok(None)) => (next, Ok(0)),
        (next, Ok(Some((n, ends)))) => (
            ConnView {
                egress: next.egress.with(egress::data_head(id, ends, n as u32)).with_body(
                    body.subrange(0, n),
                ),
                ..next
            },
            Ok(n as usize),
        ),
    }
}

/// Resetting a stream from this end.
#[verifier::opaque]
pub open spec fn stream_reset(v: ConnView, id: u32, error: ErrorCode) -> Outcome {
    if !v.has_stream(id) {
        (v, Err(ConnError::BadStream))
    } else {
        match rst_sent(v, id, error) {
            (next, Err(failure)) => (next, Err(failure)),
            (next, Ok(_)) => (
                advanced(next, id, stream::Event::RstStream, Side::Local).0,
                Ok(()),
            ),
        }
    }
}

/// Sending PING.
pub open spec fn pinged(v: ConnView, opaque: Seq<u8>) -> Outcome {
    if !v.egress.has_room(HEADER_LEN + 8) {
        (v, Err(ConnError::Overload))
    } else {
        (v.sending(FrameView::Ping { ack: false, opaque }), Ok(()))
    }
}

/// Sending GOAWAY.
pub open spec fn went_away(v: ConnView, error: ErrorCode, debug: Seq<u8>) -> Outcome {
    if !v.egress.has_room((HEADER_LEN + 8 + debug.len()) as int) {
        (v, Err(ConnError::Overload))
    } else if 8 + debug.len() > frame::FrameLength::MAX {
        (v, Err(ConnError::FrameSize))
    } else {
        (
            ConnView {
                goaway_sent: true,
                ..v.sending(FrameView::GoAway { last: v.streams.last_peer, error, debug })
            },
            Ok(()),
        )
    }
}

/// What a connection starts with.
pub open spec fn initial(c: ValidatedView, preface: bool, first_local: u32) -> ConnView {
    let table = TableView { fields: Seq::empty(), max: c.local.header_table_size as nat };
    let bare = ConnView {
        ingress: IngressView {
            input: InputView {
                chunks: Seq::empty(),
                byte_capacity: c.inbound as nat,
                chunk_capacity: ingress::chunk_limit(c.data_slots as int, c.header_slots as int),
            },
            events: if preface {
                seq![EventView::PrefaceComplete]
            } else {
                Seq::empty()
            },
            event_capacity: c.events as nat,
            header_cap: c.header_cap as nat,
            table,
            setting: c.local.header_table_size as nat,
            active: None,
            pending: None,
            preface_done: preface,
            data_places: Supply { limit: c.data_slots as nat, out: 0 },
            header_places: Supply { limit: c.header_slots as nat, out: 0 },
        },
        egress: EgressView {
            bytes: if preface {
                ingress::preface()
            } else {
                Seq::empty()
            },
            head: 0,
            payloads: Seq::empty(),
            unassigned: if preface {
                ingress::preface().len()
            } else {
                0
            },
            capacity: c.outbound as nat,
            encoder: EncoderView {
                table,
                setting: c.local.header_table_size as nat,
                pending: None,
                reset: false,
                coded: true,
            },
        },
        settings_received: false,
        goaway_sent: false,
        goaway_received: None,
        local: c.local,
        peer: settings::default_settings(),
        send_window: Window { value: Window::INITIAL },
        recv_window: Window { value: Window::INITIAL },
        recv_target: c.target,
        streams: RegistryView {
            records: Map::empty(),
            capacity: c.streams as nat,
            next_local: Some(first_local),
            last_peer: 0,
            reset: Seq::empty(),
        },
        pending_release: 0,
        peer_resets: 0,
        opened: false,
    };
    let settled = bare.sending(
        FrameView::Settings { ack: false, params: settings::settings_wire(c.local) },
    );
    if c.target > Window::INITIAL {
        ConnView {
            recv_window: Window { value: c.target as i32 },
            ..settled.sending(
                FrameView::WindowUpdate {
                    stream: 0,
                    increment: (c.target - Window::INITIAL) as u32,
                },
            )
        }
    } else {
        settled
    }
}

/// Sending touches nothing that came in, and of a body no more is sent than there is.
pub proof fn lemma_sending_keeps_ingress(v: ConnView, id: u32)
    ensures
        forall|body: Seq<u8>, end: bool|
            (#[trigger] data_sent(v, id, body, end)).1 matches Ok(n) ==> n <= body.len(),
        forall|body: Seq<u8>, end: bool|
            (#[trigger] shared_sent(v, id, body, end)).1 matches Ok(n) ==> n <= body.len(),
        forall|body: Seq<u8>, end: bool|
            (#[trigger] data_sent(v, id, body, end)).0.ingress == v.ingress,
        forall|body: Seq<u8>, end: bool|
            (#[trigger] shared_sent(v, id, body, end)).0.ingress == v.ingress,
        forall|list: Seq<FieldView>, end: bool|
            (#[trigger] response_sent(v, id, list, end)).0.ingress == v.ingress,
        forall|list: Seq<FieldView>, end: bool|
            (#[trigger] request_started(v, list, end)).0.ingress == v.ingress,
        forall|error: ErrorCode| (#[trigger] stream_reset(v, id, error)).0.ingress == v.ingress,
{
    reveal(data_sent);
    reveal(shared_sent);
    reveal(response_sent);
    reveal(request_started);
    reveal(stream_reset);
}

} // verus!
