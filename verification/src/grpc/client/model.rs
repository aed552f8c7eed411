//! What a client does with its calls, as functions of its state.

use crate::bytes;
use crate::collections;
use crate::collections::{Room, Supply};
use crate::grpc::frame;
use crate::grpc::frame::{DeframerView, FrameView};
use crate::grpc::headers;
use crate::grpc::status;
use crate::grpc::status::{Code, StatusView};
use crate::h2::conn::model;
use crate::h2::conn::model::{Chance, ConnView};
use crate::h2::error::ConnError;
use crate::h2::event::EventView;
use crate::h2::frame::ErrorCode;
use crate::h2::hpack::FieldView;
use crate::h2::ingress::IngressView;
use vstd::prelude::*;

verus! {

/// How the answer to a call is handed on: whole, or piece by piece.
#[derive(Copy, Clone, Debug, PartialEq, Eq, Structural)]
pub enum ResponseMode {
    Unary,
    Streaming,
}

/// A message that waits to be sent.
#[verifier::ext_equal]
pub struct PendingView {
    pub bytes: Seq<u8>,
    pub pos: nat,
    pub end_stream: bool,
}

/// A call.
#[verifier::ext_equal]
pub struct CallView {
    pub mode: ResponseMode,
    pub metadata: Seq<FieldView>,
    pub deframer: DeframerView,
    pub message: Option<FrameView>,
    pub buffered_len: usize,
    pub message_count: usize,
    pub requests: Seq<PendingView>,
    pub queued: bool,
    pub closed: bool,
}

/// All calls, the queue of those that have something to send, and the room for messages that
/// wait.
#[verifier::ext_equal]
pub struct CallsView {
    pub calls: Map<u32, CallView>,
    pub capacity: nat,
    pub pending: Seq<u32>,
    pub pending_capacity: nat,
    pub room: Room,
    pub max_message: usize,
    pub max_pending: usize,
}

/// The answer to a call, whole.
#[verifier::ext_equal]
pub struct UnaryView {
    pub stream: u32,
    pub metadata: Seq<FieldView>,
    pub message: Option<FrameView>,
    pub trailers: Seq<FieldView>,
    pub status: StatusView,
}

/// A piece of the answer to a call.
#[verifier::ext_equal]
pub enum PieceView {
    Headers { stream: u32, metadata: Seq<FieldView> },
    Message { stream: u32, message: FrameView },
    Trailers { stream: u32, metadata: Seq<FieldView>, status: StatusView },
}

/// What waits for the owner of the client.
#[verifier::ext_equal]
pub struct InboxView {
    pub complete: Seq<UnaryView>,
    pub complete_capacity: nat,
    pub events: Seq<PieceView>,
    pub event_capacity: nat,
    pub max_len: usize,
    pub max_msgs: usize,
    pub fragments: Supply,
}

/// A client.
#[verifier::ext_equal]
pub struct ClientView {
    pub conn: ConnView,
    pub calls: CallsView,
    pub inbox: InboxView,
}

impl CallsView {
    pub open spec fn has(self, id: u32) -> bool {
        self.calls.contains_key(id)
    }

    pub open spec fn with(self, id: u32, call: CallView) -> CallsView {
        CallsView { calls: self.calls.insert(id, call), ..self }
    }
}

/// A call for which nothing was sent and nothing has come.
pub open spec fn new_call(mode: ResponseMode, max_message: usize) -> CallView {
    CallView {
        mode,
        metadata: Seq::empty(),
        deframer: frame::fresh(max_message),
        message: None,
        buffered_len: 0,
        message_count: 0,
        requests: Seq::empty(),
        queued: false,
        closed: false,
    }
}

/// A new call; the result says whether there was room.
pub open spec fn inserted(v: CallsView, id: u32, mode: ResponseMode) -> (CallsView, bool) {
    if v.has(id) || v.calls.len() >= v.capacity {
        (v, false)
    } else {
        (v.with(id, new_call(mode, v.max_message)), true)
    }
}

/// Without a call.
pub open spec fn removed(v: CallsView, id: u32) -> CallsView {
    if !v.has(id) {
        v
    } else {
        CallsView {
            calls: v.calls.remove(id),
            pending: if v.calls[id].queued {
                collections::others(v.pending, id)
            } else {
                v.pending
            },
            room: v.room.fewer(v.calls[id].requests.len()),
            ..v
        }
    }
}

pub open spec fn exhausted(message: &str) -> StatusView {
    status::fixed(Code::ResourceExhausted, message)
}

pub open spec fn internal(message: &str) -> StatusView {
    status::fixed(Code::Internal, message)
}

/// Sending as much of a message as goes; the result says whether all of it was sent.
pub open spec fn request_driven(c: ConnView, id: u32, p: PendingView) -> (
    ConnView,
    PendingView,
    Result<bool, ConnError>,
)
    decreases p.bytes.len() - p.pos,
{
    if p.pos >= p.bytes.len() {
        (c, p, Ok(true))
    } else {
        let rest = p.bytes.skip(p.pos as int);
        match model::data_sent(c, id, rest, p.end_stream) {
            (next, Err(failure)) => (next, p, Err(failure)),
            (next, Ok(n)) => if n == 0 || n > rest.len() {
                (next, p, Ok(false))
            } else {
                request_driven(next, id, PendingView { pos: (p.pos + n) as nat, ..p })
            },
        }
    }
}

/// Sending as many messages of a call as go; the result says whether all were sent.
pub open spec fn call_driven(c: ConnView, id: u32, requests: Seq<PendingView>) -> (
    ConnView,
    Seq<PendingView>,
    Result<bool, ConnError>,
)
    decreases requests.len(),
{
    if requests.len() == 0 {
        (c, requests, Ok(true))
    } else {
        match request_driven(c, id, requests[0]) {
            (next, p, Err(failure)) => (next, requests.update(0, p), Err(failure)),
            (next, p, Ok(false)) => (next, requests.update(0, p), Ok(false)),
            (next, p, Ok(true)) => call_driven(next, id, requests.drop_first()),
        }
    }
}

/// Sending what the first call in the queue has to send.
pub open spec fn turn(v: CallsView, c: ConnView) -> (CallsView, ConnView) {
    let id = v.pending[0];
    let popped = CallsView { pending: v.pending.drop_first(), ..v };
    if !v.has(id) {
        (popped, c)
    } else {
        let call = CallView { queued: false, ..v.calls[id] };
        let (next, left, done) = call_driven(c, id, call.requests);
        let after = CallsView {
            room: v.room.fewer((call.requests.len() - left.len()) as nat),
            ..popped.with(id, CallView { requests: left, ..call })
        };
        match done {
            Ok(true) => (after, next),
            Ok(false) => if after.pending.len() < after.pending_capacity {
                (
                    CallsView {
                        pending: after.pending.push(id),
                        ..after.with(id, CallView { requests: left, queued: true, ..call })
                    },
                    next,
                )
            } else {
                (removed(after, id), next)
            },
            Err(_) => (removed(after, id), next),
        }
    }
}

/// Going once round `n` calls that have something to send.
pub open spec fn flushed(v: CallsView, c: ConnView, n: nat) -> (CallsView, ConnView)
    decreases n,
{
    if n == 0 || v.pending.len() == 0 {
        (v, c)
    } else {
        let (next, conn) = turn(v, c);
        flushed(next, conn, (n - 1) as nat)
    }
}

/// Keeping a message until it can be sent. `place` says whether a slab that may have given slots
/// up still has one.
pub open spec fn enqueued(v: CallsView, id: u32, bytes: Seq<u8>, end_stream: bool, place: bool) -> (
    CallsView,
    Result<(), StatusView>,
) {
    if bytes.len() > v.max_pending {
        (v, Err(exhausted("pending request is too large")))
    } else if !v.has(id) {
        (v, Err(internal("request for unknown gRPC stream")))
    } else if !v.calls[id].queued && v.pending.len() >= v.pending_capacity {
        (v, Err(exhausted("pending request queue is full")))
    } else if !v.room.gives(place) {
        (v, Err(exhausted("pending request messages are full")))
    } else {
        let call = v.calls[id];
        let next = v.with(
            id,
            CallView {
                requests: call.requests.push(PendingView { bytes, pos: 0, end_stream }),
                queued: true,
                ..call
            },
        );
        (
            CallsView {
                pending: if call.queued {
                    v.pending
                } else {
                    v.pending.push(id)
                },
                room: v.room.more(),
                ..next
            },
            Ok(()),
        )
    }
}

/// No more is to be sent for a call.
pub open spec fn closed(v: CallsView, id: u32) -> CallsView {
    if v.has(id) {
        v.with(id, CallView { closed: true, ..v.calls[id] })
    } else {
        v
    }
}

/// Going on with a message of which `consumed` bytes were sent.
pub open spec fn continued(
    v: CallsView,
    c: ConnView,
    id: u32,
    bytes: Seq<u8>,
    consumed: nat,
    end_stream: bool,
) -> (ConnView, Result<nat, ConnError>)
    decreases bytes.len() - consumed,
{
    if consumed >= bytes.len() || consumed < frame::PREFIX_LEN {
        (c, Ok(consumed))
    } else {
        let rest = bytes.skip(consumed as int);
        match model::data_sent(c, id, rest, end_stream) {
            (next, Err(failure)) => (next, Err(failure)),
            (next, Ok(n)) => if n == 0 || n > rest.len() {
                (next, Ok(consumed))
            } else {
                continued(v, next, id, bytes, (consumed + n) as nat, end_stream)
            },
        }
    }
}

pub type Sent = (CallsView, ConnView, Result<(), StatusView>);

/// Sending a message: what does not go out at once waits. `place` is as with `enqueued`.
pub open spec fn message_sent(
    v: CallsView,
    c: ConnView,
    id: u32,
    payload: Seq<u8>,
    end_stream: bool,
    place: bool,
) -> Sent {
    let bytes = frame::framed(FrameView { compressed: false, payload });
    if payload.len() > v.max_message {
        (v, c, Err(exhausted("gRPC message is too large")))
    } else if payload.len() > u32::MAX {
        (v, c, Err(internal("gRPC message length overflow")))
    } else if !v.has(id) {
        (v, c, Err(internal("request for unknown gRPC stream")))
    } else if v.calls[id].closed {
        (v, c, Err(internal("request stream is closed")))
    } else if v.calls[id].requests.len() > 0 {
        match enqueued(v, id, bytes, end_stream, place) {
            (next, Err(failure)) => (next, c, Err(failure)),
            (next, Ok(_)) => {
                let marked = if end_stream {
                    closed(next, id)
                } else {
                    next
                };
                let (after, conn) = flushed(marked, c, marked.pending.len());
                (after, conn, Ok(()))
            },
        }
    } else {
        first_sent(v, c, id, bytes, end_stream, place)
    }
}

/// Sending a message before which none waits.
pub open spec fn first_sent(
    v: CallsView,
    c: ConnView,
    id: u32,
    bytes: Seq<u8>,
    end_stream: bool,
    place: bool,
) -> Sent {
    let (started, first) = if bytes.len() > usize::MAX {
        (c, Err::<usize, ConnError>(ConnError::FrameSize))
    } else {
        model::data_sent(c, id, bytes, end_stream)
    };
    match first {
        Err(failure) => (removed(v, id), started, Err(status::conn_failure(failure))),
        Ok(n) => match continued(v, started, id, bytes, n as nat, end_stream) {
            (conn, Err(failure)) => (
                removed(v, id),
                conn,
                Err(status::conn_failure(failure)),
            ),
            (conn, Ok(consumed)) => {
                let (next, kept) = if consumed == bytes.len() {
                    (v, Ok::<(), StatusView>(()))
                } else {
                    enqueued(v, id, bytes.skip(consumed as int), end_stream, place)
                };
                match kept {
                    Err(failure) => (
                        removed(next, id),
                        model::stream_reset(conn, id, ErrorCode::Cancel).0,
                        Err(failure),
                    ),
                    Ok(_) => if end_stream {
                        (closed(next, id), conn, Ok(()))
                    } else {
                        (next, conn, Ok(()))
                    },
                }
            },
        },
    }
}

/// Saying that no more messages follow.
pub open spec fn finished(v: CallsView, c: ConnView, id: u32) -> Sent {
    if !v.has(id) {
        (v, c, Err(internal("request for unknown gRPC stream")))
    } else if v.calls[id].closed {
        (v, c, Ok(()))
    } else {
        let marked = closed(v, id);
        let call = marked.calls[id];
        if call.requests.len() > 0 {
            let last = PendingView { end_stream: true, ..call.requests.last() };
            let ending = marked.with(
                id,
                CallView { requests: call.requests.drop_last().push(last), ..call },
            );
            let (after, conn) = flushed(ending, c, ending.pending.len());
            (after, conn, Ok(()))
        } else {
            let (after, conn) = flushed(marked, c, marked.pending.len());
            match model::data_sent(conn, id, Seq::empty(), true) {
                (next, Err(failure)) => (after, next, Err(status::conn_failure(failure))),
                (next, Ok(_)) => (after, next, Ok(())),
            }
        }
    }
}

/// Giving a call up.
pub open spec fn aborted(v: CallsView, c: ConnView, id: u32) -> (CallsView, ConnView) {
    if v.has(id) {
        (removed(v, id), model::stream_reset(c, id, ErrorCode::Cancel).0)
    } else {
        (v, c)
    }
}

/// Opening a call.
pub open spec fn started(
    v: CallsView,
    c: ConnView,
    path: Seq<u8>,
    authority: Option<Seq<u8>>,
    metadata: Seq<FieldView>,
    mode: ResponseMode,
) -> (CallsView, ConnView, Result<u32, StatusView>) {
    match headers::request_fields(path, authority, metadata) {
        Err(failure) => (v, c, Err(failure)),
        Ok(fields) => match model::request_started(c, fields, false) {
            (next, Err(failure)) => (v, next, Err(status::conn_failure(failure))),
            (next, Ok(id)) => match inserted(v, id, mode) {
                (calls, true) => (calls, next, Ok(id)),
                (calls, false) => (
                    calls,
                    model::stream_reset(next, id, ErrorCode::RefusedStream).0,
                    Err(exhausted("too many in-flight streams")),
                ),
            },
        },
    }
}

/// Opening a call with its one message.
pub open spec fn unary_started(
    v: CallsView,
    c: ConnView,
    path: Seq<u8>,
    authority: Option<Seq<u8>>,
    metadata: Seq<FieldView>,
    payload: Seq<u8>,
    place: bool,
) -> (CallsView, ConnView, Result<u32, StatusView>) {
    match started(v, c, path, authority, metadata, ResponseMode::Unary) {
        (calls, conn, Err(failure)) => (calls, conn, Err(failure)),
        (calls, conn, Ok(id)) => match message_sent(calls, conn, id, payload, true, place) {
            (after, next, Ok(_)) => (after, next, Ok(id)),
            (after, next, Err(failure)) => {
                let (gone, end) = aborted(after, next, id);
                (gone, end, Err(failure))
            },
        },
    }
}

/// Sending messages one after the other, the last of which ends the request. `places` says of
/// each whether a slab that may have given slots up still has a slot for it.
pub open spec fn all_sent(
    v: CallsView,
    c: ConnView,
    id: u32,
    payloads: Seq<Seq<u8>>,
    places: Seq<bool>,
) -> (CallsView, ConnView, Result<u32, StatusView>)
    decreases payloads.len(),
{
    if payloads.len() == 0 {
        (v, c, Ok(id))
    } else {
        match message_sent(v, c, id, payloads[0], payloads.len() == 1, places[0]) {
            (after, next, Err(failure)) => {
                let (gone, end) = aborted(after, next, id);
                (gone, end, Err(failure))
            },
            (after, next, Ok(_)) => all_sent(
                after,
                next,
                id,
                payloads.drop_first(),
                places.drop_first(),
            ),
        }
    }
}

/// Opening a call with all its messages.
pub open spec fn streaming_started(
    v: CallsView,
    c: ConnView,
    path: Seq<u8>,
    authority: Option<Seq<u8>>,
    metadata: Seq<FieldView>,
    payloads: Seq<Seq<u8>>,
    places: Seq<bool>,
) -> (CallsView, ConnView, Result<u32, StatusView>) {
    match started(v, c, path, authority, metadata, ResponseMode::Streaming) {
        (calls, conn, Err(failure)) => (calls, conn, Err(failure)),
        (calls, conn, Ok(id)) => if payloads.len() == 0 {
            match finished(calls, conn, id) {
                (after, next, Ok(_)) => (after, next, Ok(id)),
                (after, next, Err(failure)) => {
                    let (gone, end) = aborted(after, next, id);
                    (gone, end, Err(failure))
                },
            }
        } else {
            all_sent(calls, conn, id, payloads, places)
        },
    }
}

/// Sending messages that a codec writes, one after the other; `given` says what came of each,
/// up to the first failure. The last of `total` ends the request.
pub open spec fn typed_sent(
    v: CallsView,
    c: ConnView,
    id: u32,
    given: Seq<Result<Seq<u8>, StatusView>>,
    total: nat,
    places: Seq<bool>,
) -> (CallsView, ConnView, Result<u32, StatusView>)
    decreases given.len(),
{
    if given.len() == 0 {
        (v, c, Ok(id))
    } else {
        match given[0] {
            Err(failure) => {
                let (gone, end) = aborted(v, c, id);
                (gone, end, Err(failure))
            },
            Ok(payload) => match message_sent(v, c, id, payload, total == 1, places[0]) {
                (after, next, Err(failure)) => {
                    let (gone, end) = aborted(after, next, id);
                    (gone, end, Err(failure))
                },
                (after, next, Ok(_)) => typed_sent(
                    after,
                    next,
                    id,
                    given.drop_first(),
                    (total - 1) as nat,
                    places.drop_first(),
                ),
            },
        }
    }
}

/// Opening a call with messages that a codec writes.
pub open spec fn typed_started(
    v: CallsView,
    c: ConnView,
    path: Seq<u8>,
    authority: Option<Seq<u8>>,
    metadata: Seq<FieldView>,
    given: Seq<Result<Seq<u8>, StatusView>>,
    total: nat,
    places: Seq<bool>,
) -> (CallsView, ConnView, Result<u32, StatusView>) {
    match started(v, c, path, authority, metadata, ResponseMode::Streaming) {
        (calls, conn, Err(failure)) => (calls, conn, Err(failure)),
        (calls, conn, Ok(id)) => if total == 0 {
            match finished(calls, conn, id) {
                (after, next, Ok(_)) => (after, next, Ok(id)),
                (after, next, Err(failure)) => {
                    let (gone, end) = aborted(after, next, id);
                    (gone, end, Err(failure))
                },
            }
        } else {
            typed_sent(calls, conn, id, given, total, places)
        },
    }
}

/// Whether no more messages were written than were needed: all but the last were sent.
pub open spec fn typed_needed(
    v: CallsView,
    c: ConnView,
    path: Seq<u8>,
    authority: Option<Seq<u8>>,
    metadata: Seq<FieldView>,
    given: Seq<Result<Seq<u8>, StatusView>>,
    total: nat,
    places: Seq<bool>,
) -> bool {
    given.len() > 0 ==> typed_started(
        v,
        c,
        path,
        authority,
        metadata,
        given.drop_last(),
        total,
        places,
    ).2 is Ok
}

/// Handing on a whole answer.
pub open spec fn unary_pushed(b: InboxView, u: UnaryView) -> (InboxView, Result<(), StatusView>) {
    if b.complete.len() < b.complete_capacity {
        (InboxView { complete: b.complete.push(u), ..b }, Ok(()))
    } else {
        (b, Err(exhausted("result queue is full")))
    }
}

/// Handing on a piece of an answer.
pub open spec fn piece_pushed(b: InboxView, p: PieceView) -> (InboxView, Result<(), StatusView>) {
    if b.events.len() < b.event_capacity {
        (InboxView { events: b.events.push(p), ..b }, Ok(()))
    } else {
        (b, Err(exhausted("event queue is full")))
    }
}

/// Whether the end of an answer can be handed on.
pub open spec fn delivery_room(b: InboxView, mode: ResponseMode) -> Result<(), StatusView> {
    match mode {
        ResponseMode::Unary => if b.complete.len() < b.complete_capacity {
            Ok(())
        } else {
            Err(exhausted("result queue is full"))
        },
        ResponseMode::Streaming => if b.events.len() < b.event_capacity {
            Ok(())
        } else {
            Err(exhausted("event queue is full"))
        },
    }
}

pub type Step = (ClientView, Result<(), StatusView>);

/// The end of an answer. `missing` is said of a call that is not there.
pub open spec fn ended(
    v: ClientView,
    id: u32,
    s: StatusView,
    trailers: Seq<FieldView>,
    missing: &str,
) -> Step {
    if !v.calls.has(id) {
        (v, Err(internal(missing)))
    } else {
        let call = v.calls.calls[id];
        match delivery_room(v.inbox, call.mode) {
            Err(failure) => (v, Err(failure)),
            Ok(_) => {
                let inbox = match call.mode {
                    ResponseMode::Unary => unary_pushed(
                        v.inbox,
                        UnaryView {
                            stream: id,
                            metadata: call.metadata,
                            message: call.message,
                            trailers,
                            status: s,
                        },
                    ).0,
                    ResponseMode::Streaming => piece_pushed(
                        v.inbox,
                        PieceView::Trailers { stream: id, metadata: trailers, status: s },
                    ).0,
                };
                (ClientView { calls: removed(v.calls, id), inbox, ..v }, Ok(()))
            },
        }
    }
}

/// The sum of two lengths, as far as the machine counts.
pub open spec fn capped(a: usize, b: nat) -> usize {
    if a + b > usize::MAX {
        usize::MAX
    } else {
        (a + b) as usize
    }
}

/// A message of an answer.
pub open spec fn message_taken(v: ClientView, id: u32, m: FrameView) -> Step {
    let call = v.calls.calls[id];
    let len = capped(call.buffered_len, m.payload.len());
    let counted = CallView {
        buffered_len: len,
        message_count: capped(call.message_count, 1),
        ..call
    };
    if len > v.inbox.max_len || call.message_count >= v.inbox.max_msgs {
        (
            ClientView { calls: v.calls.with(id, counted), ..v },
            Err(exhausted("stream buffer limit exceeded")),
        )
    } else {
        match call.mode {
            ResponseMode::Unary => (
                ClientView {
                    calls: v.calls.with(id, CallView { message: Some(m), ..counted }),
                    ..v
                },
                if call.message is Some {
                    Err(internal("unary response has multiple messages"))
                } else {
                    Ok(())
                },
            ),
            ResponseMode::Streaming => {
                let (inbox, pushed) = piece_pushed(
                    v.inbox,
                    PieceView::Message { stream: id, message: m },
                );
                (ClientView { calls: v.calls.with(id, counted), inbox, ..v }, pushed)
            },
        }
    }
}

/// Bytes of an answer. `place` says whether there is a place for a message that is not
/// complete, once the pool has given out as many as it has.
pub open spec fn data_taken(v: ClientView, id: u32, data: Seq<u8>, place: bool) -> Step
    decreases
            (if v.calls.has(id) {
                v.inbox.max_msgs - v.calls.calls[id].message_count
            } else {
                0
            }),
{
    if data.len() == 0 {
        (v, Ok(()))
    } else if !v.calls.has(id) {
        (v, Err(internal("event for unknown gRPC stream")))
    } else {
        let call = v.calls.calls[id];
        let (d, rest, out) = frame::deframed(call.deframer, data, v.inbox.fragments.gives(place));
        let read = ClientView {
            calls: v.calls.with(id, CallView { deframer: d, ..call }),
            inbox: InboxView {
                fragments: frame::asked_for(v.inbox.fragments, call.deframer, data, place),
                ..v.inbox
            },
            ..v
        };
        match out {
            Err(failure) => (read, Err(status::frame_failure(failure))),
            Ok(None) => (read, Ok(())),
            Ok(Some(m)) => match message_taken(read, id, m) {
                (next, Err(failure)) => (next, Err(failure)),
                (next, Ok(_)) => data_taken(next, id, rest, place),
            },
        }
    }
}

/// The start of an answer.
pub open spec fn head_taken(v: ClientView, id: u32, fields: Seq<FieldView>, end_stream: bool) -> Step {
    match headers::response_head(fields) {
        Err(failure) => (v, Err(failure)),
        Ok(metadata) => if !v.calls.has(id) {
            (v, Err(internal("event for unknown gRPC stream")))
        } else {
            let call = v.calls.calls[id];
            let (next, pushed) = match call.mode {
                ResponseMode::Unary => (
                    ClientView { calls: v.calls.with(id, CallView { metadata, ..call }), ..v },
                    Ok::<(), StatusView>(()),
                ),
                ResponseMode::Streaming => {
                    let (inbox, pushed) = piece_pushed(
                        v.inbox,
                        PieceView::Headers { stream: id, metadata },
                    );
                    (ClientView { inbox, ..v }, pushed)
                },
            };
            match pushed {
                Err(failure) => (next, Err(failure)),
                Ok(_) => if end_stream {
                    match headers::response_trailers(fields) {
                        Err(failure) => (next, Err(failure)),
                        Ok((s, trailers)) => ended(
                            next,
                            id,
                            s,
                            trailers,
                            "trailers for unknown gRPC stream",
                        ),
                    }
                } else {
                    (next, Ok(()))
                },
            }
        },
    }
}

/// What an event brings about.
#[verifier::opaque]
pub open spec fn event_taken(v: ClientView, event: EventView, place: bool) -> Step {
    match event {
        EventView::Headers { stream, fields, end_stream, trailing } => if trailing {
            match headers::response_trailers(fields) {
                Err(failure) => (v, Err(failure)),
                Ok((s, trailers)) => match ended(
                    v,
                    stream,
                    s,
                    trailers,
                    "trailers for unknown gRPC stream",
                ) {
                    (next, Err(failure)) => (next, Err(failure)),
                    (next, Ok(_)) => if end_stream {
                        (next, Ok(()))
                    } else {
                        (next, Err(internal("trailers without END_STREAM")))
                    },
                },
            }
        } else {
            head_taken(v, stream, fields, end_stream)
        },
        EventView::Data { stream, data, end_stream } => match data_taken(v, stream, data, place) {
            (next, Err(failure)) => (next, Err(failure)),
            (next, Ok(_)) => if end_stream {
                let (calls, conn) = aborted(next.calls, next.conn, stream);
                (
                    ClientView { calls, conn, ..next },
                    Err(internal("missing grpc-status")),
                )
            } else {
                (next, Ok(()))
            },
        },
        EventView::StreamReset { stream, error } => ended(
            v,
            stream,
            status::reset_failure(error),
            Seq::empty(),
            "reset for unknown stream",
        ),
        _ => (v, Ok(())),
    }
}

/// Without the first event of the connection, of which data alone is kept.
pub open spec fn polled(v: ClientView) -> ClientView {
    ClientView {
        conn: v.conn.with_ingress(
            IngressView {
                events: v.conn.ingress.events.drop_first(),
                ..v.conn.ingress
            }.keeping_data(v.conn.ingress.events[0]),
        ),
        ..v
    }
}

/// After the place that an event holds was given back, where it is not kept.
pub open spec fn freed(v: ClientView, event: EventView) -> ClientView {
    ClientView { conn: v.conn.with_ingress(v.conn.ingress.keeping_data(event)), ..v }
}

/// What `n` events bring about, up to the first failure.
pub open spec fn handled(v: ClientView, n: nat, places: Seq<bool>) -> Step
    decreases n,
{
    if n == 0 {
        (v, Ok(()))
    } else {
        match event_taken(polled(v), v.conn.ingress.events[0], places[0]) {
            (next, Err(failure)) => (next, Err(failure)),
            (next, Ok(_)) => handled(next, (n - 1) as nat, places.drop_first()),
        }
    }
}

/// What the pools answer while a client goes once round.
pub struct Round {
    pub events: Seq<bool>,
    pub frames: Seq<Chance>,
}

/// Dealing with events and sending what waits, for as long as the connection had to stop for
/// want of room and gets on. `None` where there are more rounds than `rounds` tells of.
pub open spec fn driven(v: ClientView, result: Result<(), ConnError>, rounds: Seq<Round>) -> Option<
    Step,
>
    decreases rounds.len(),
{
    if rounds.len() == 0 {
        None
    } else {
        let count = v.conn.ingress.events.len();
        match handled(v, count, rounds[0].events) {
            (next, Err(failure)) => Some((next, Err(failure))),
            (next, Ok(_)) => {
                let (calls, conn) = flushed(next.calls, next.conn, next.calls.pending.len());
                let after = ClientView { calls, conn, ..next };
                match result {
                    Ok(_) => Some((after, Ok(()))),
                    Err(failure) => if failure == ConnError::Overload && count != 0 {
                        let (more, again) = model::resumed(conn, false, rounds[0].frames);
                        driven(ClientView { conn: more, ..after }, again, rounds.drop_first())
                    } else {
                        Some((after, Err(status::conn_failure(failure))))
                    },
                }
            },
        }
    }
}

} // verus!
