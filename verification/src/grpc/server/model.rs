//! What a server does with its calls, as functions of its state.

use crate::collections;
use crate::collections::{Room, Supply};
use crate::grpc::frame;
use crate::grpc::frame::{DeframerView, FrameView};
use crate::grpc::headers;
use crate::grpc::headers::RequestHeadView;
use crate::grpc::server::limits;
use crate::grpc::server::limits::Limits;
use crate::grpc::server::reply;
use crate::grpc::server::reply::{ReplyView, ResponseView, RoutesView, StreamMode};
use crate::grpc::status;
use crate::grpc::status::{Code, StatusView};
use crate::h2::conn::model;
use crate::h2::conn::model::{Chance, ConnView};
use crate::h2::error::ConnError;
use crate::h2::event::EventView;
use crate::h2::frame::ErrorCode;
use crate::h2::hpack::FieldView;
use crate::h2::ingress::IngressView;
use vstd::prelude::*;

verus! {

/// A request that is not complete.
#[verifier::ext_equal]
pub struct StreamView {
    pub head: RequestHeadView,
    pub deframer: DeframerView,
    pub messages: Seq<FrameView>,
    pub trailers: Seq<FieldView>,
    pub mode: StreamMode,
    pub buffered_len: usize,
}

/// What is left to send of an answer. `batches` says how many messages came together; each batch
/// takes one slot.
#[verifier::ext_equal]
pub struct PendingView {
    pub fields: Seq<FieldView>,
    pub messages: Seq<Seq<u8>>,
    pub batches: Seq<nat>,
    pub trailers: Option<Seq<FieldView>>,
    pub headers_sent: bool,
    pub frame_pos: nat,
    pub remaining: usize,
}

/// A call.
#[verifier::ext_equal]
pub struct CallView {
    pub stream: Option<StreamView>,
    pub pending: Option<PendingView>,
    pub queued: bool,
}

/// All calls, the queue of those that have something to send, and the room for messages that came
/// in and for batches of messages that wait to be sent.
#[verifier::ext_equal]
pub struct CallsView {
    pub calls: Map<u32, CallView>,
    pub capacity: nat,
    pub messages: Room,
    pub replies: Room,
    pub buffered: usize,
    pub queue: Seq<u32>,
    pub queue_capacity: nat,
    pub pending_len: usize,
    pub pending_capacity: usize,
}

/// A server on one connection.
#[verifier::ext_equal]
pub struct ServerView {
    pub conn: ConnView,
    pub calls: CallsView,
    pub routes: RoutesView,
    pub fragments: Supply,
}

impl CallsView {
    pub open spec fn has(self, id: u32) -> bool {
        self.calls.contains_key(id)
    }

    pub open spec fn with(self, id: u32, call: CallView) -> CallsView {
        CallsView { calls: self.calls.insert(id, call), ..self }
    }

    /// The request of a call.
    pub open spec fn stream(self, id: u32) -> Option<StreamView> {
        if self.has(id) {
            self.calls[id].stream
        } else {
            None
        }
    }
}

/// The difference of two lengths, or nothing.
pub open spec fn less(a: usize, b: usize) -> usize {
    if a < b {
        0
    } else {
        (a - b) as usize
    }
}

/// The sum of two lengths, as far as the machine counts.
pub open spec fn capped(a: usize, b: nat) -> usize {
    if a + b > usize::MAX {
        usize::MAX
    } else {
        (a + b) as usize
    }
}

/// A request of which only the head is there.
pub open spec fn new_stream(head: RequestHeadView, mode: StreamMode, max_message: usize) -> StreamView {
    StreamView {
        head,
        deframer: frame::fresh(max_message),
        messages: Seq::empty(),
        trailers: Seq::empty(),
        mode,
        buffered_len: 0,
    }
}

/// A new call; the result says whether there was room.
pub open spec fn inserted(v: CallsView, id: u32, s: StreamView) -> (CallsView, bool) {
    if v.has(id) || v.calls.len() >= v.capacity {
        (v, false)
    } else {
        (v.with(id, CallView { stream: Some(s), pending: None, queued: false }), true)
    }
}

/// Without a call.
pub open spec fn removed(v: CallsView, id: u32) -> CallsView {
    if !v.has(id) {
        v
    } else {
        let call = v.calls[id];
        CallsView {
            calls: v.calls.remove(id),
            queue: if call.queued {
                collections::others(v.queue, id)
            } else {
                v.queue
            },
            pending_len: match call.pending {
                Some(p) => less(v.pending_len, p.remaining),
                None => v.pending_len,
            },
            buffered: match call.stream {
                Some(s) => less(v.buffered, s.buffered_len),
                None => v.buffered,
            },
            messages: match call.stream {
                Some(s) => v.messages.fewer(s.messages.len()),
                None => v.messages,
            },
            replies: match call.pending {
                Some(p) => v.replies.fewer(p.batches.len()),
                None => v.replies,
            },
            ..v
        }
    }
}

/// Without a call of which nothing is left.
pub open spec fn emptied(v: CallsView, id: u32) -> CallsView {
    if v.has(id) && v.calls[id].stream is None && v.calls[id].pending is None {
        CallsView { calls: v.calls.remove(id), ..v }
    } else {
        v
    }
}

/// A request that is taken out of its call.
pub open spec fn taken(v: CallsView, id: u32) -> CallsView {
    match v.stream(id) {
        None => v,
        Some(s) => CallsView {
            buffered: less(v.buffered, s.buffered_len),
            messages: v.messages.fewer(s.messages.len()),
            ..v.with(id, CallView { stream: None, ..v.calls[id] })
        },
    }
}

/// A message of a request that waits until it is complete. `place` says whether a slab that may
/// have given slots up still has one.
pub open spec fn message_kept(
    v: CallsView,
    id: u32,
    m: FrameView,
    l: Limits,
    place: bool,
) -> Option<CallsView> {
    match v.stream(id) {
        None => None,
        Some(s) => if capped(s.buffered_len, m.payload.len()) > l.max_buffered_len
            || s.messages.len() >= l.max_buffered_msgs || capped(v.buffered, m.payload.len())
            > l.max_conn_buffered_len || !v.messages.gives(place) {
            None
        } else {
            Some(
                CallsView {
                    buffered: capped(v.buffered, m.payload.len()),
                    messages: v.messages.more(),
                    ..v.with(
                        id,
                        CallView {
                            stream: Some(
                                StreamView {
                                    messages: s.messages.push(m),
                                    buffered_len: capped(s.buffered_len, m.payload.len()),
                                    ..s
                                },
                            ),
                            ..v.calls[id]
                        },
                    )
                },
            )
        },
    }
}

pub open spec fn exhausted(message: &str) -> StatusView {
    status::fixed(Code::ResourceExhausted, message)
}

pub open spec fn internal(message: &str) -> StatusView {
    status::fixed(Code::Internal, message)
}

/// The bytes that messages take, or what is wrong with the first that is too long.
pub open spec fn framed_len(messages: Seq<Seq<u8>>, total: nat) -> Result<nat, StatusView>
    decreases messages.len(),
{
    if messages.len() == 0 {
        Ok(total)
    } else if messages[0].len() > u32::MAX {
        Err(internal("response message too large"))
    } else if total + messages[0].len() + frame::PREFIX_LEN > usize::MAX {
        Err(exhausted("pending response bytes are full"))
    } else {
        framed_len(messages.drop_first(), total + messages[0].len() + frame::PREFIX_LEN as nat)
    }
}

/// The fields that end an answer, if it has ended.
pub open spec fn end_fields(reply: ReplyView) -> Result<Option<Seq<FieldView>>, StatusView> {
    match reply.status {
        None => Ok(None),
        Some(s) => match headers::trailer_fields(s, reply.trailers) {
            Ok(list) => Ok(Some(list)),
            Err(failure) => Err(failure),
        },
    }
}

/// With a batch of `n` messages more, unless it is empty.
pub open spec fn with_batch(batches: Seq<nat>, n: nat) -> Seq<nat> {
    if n == 0 {
        batches
    } else {
        batches.push(n)
    }
}

/// Without the first message.
pub open spec fn shorter(batches: Seq<nat>) -> Seq<nat> {
    if batches[0] <= 1 {
        batches.drop_first()
    } else {
        batches.update(0, (batches[0] - 1) as nat)
    }
}

/// An answer with a piece more.
pub open spec fn extended(
    pending: Option<PendingView>,
    fields: Seq<FieldView>,
    messages: Seq<Seq<u8>>,
    trailers: Option<Seq<FieldView>>,
    added: nat,
) -> PendingView {
    match pending {
        None => PendingView {
            fields,
            messages,
            batches: with_batch(Seq::empty(), messages.len()),
            trailers,
            headers_sent: false,
            frame_pos: 0,
            remaining: added as usize,
        },
        Some(p) => PendingView {
            messages: p.messages + messages,
            batches: with_batch(p.batches, messages.len()),
            trailers: if trailers is Some {
                trailers
            } else {
                p.trailers
            },
            remaining: capped(p.remaining, added),
            ..p
        },
    }
}

/// A piece of an answer is kept until it can be sent. `place` says whether a slab that may have
/// given slots up still has one.
pub open spec fn enqueued(v: CallsView, id: u32, r: ReplyView, place: bool) -> (
    CallsView,
    Result<(), StatusView>,
) {
    if r.messages.len() == 0 && r.status is None && r.metadata.len() == 0 {
        (v, Ok(()))
    } else {
        match framed_len(r.messages, 0) {
            Err(failure) => (v, Err(failure)),
            Ok(added) => if v.pending_len + added > v.pending_capacity {
                (v, Err(exhausted("pending response bytes are full")))
            } else {
                match headers::response_fields(r.metadata) {
                    Err(failure) => (v, Err(failure)),
                    Ok(fields) => match end_fields(r) {
                        Err(failure) => (v, Err(failure)),
                        Ok(trailers) => kept(v, id, fields, r.messages, trailers, added, place),
                    },
                }
            },
        }
    }
}

pub open spec fn kept(
    v: CallsView,
    id: u32,
    fields: Seq<FieldView>,
    messages: Seq<Seq<u8>>,
    trailers: Option<Seq<FieldView>>,
    added: nat,
    place: bool,
) -> (CallsView, Result<(), StatusView>) {
    if !v.has(id) {
        (v, Err(internal("reply for unknown gRPC stream")))
    } else if !v.calls[id].queued && v.queue.len() >= v.queue_capacity {
        (v, Err(exhausted("pending response queue is full")))
    } else if messages.len() > 0 && !v.replies.gives(place) {
        (v, Err(exhausted("pending response messages are full")))
    } else {
        let call = v.calls[id];
        let next = CallView {
            pending: Some(extended(call.pending, fields, messages, trailers, added)),
            queued: true,
            ..call
        };
        (
            CallsView {
                queue: if call.queued {
                    v.queue
                } else {
                    v.queue.push(id)
                },
                pending_len: (v.pending_len + added) as usize,
                replies: if messages.len() > 0 {
                    v.replies.more()
                } else {
                    v.replies
                },
                ..v.with(id, next)
            },
            Ok(()),
        )
    }
}

/// How far an answer went: to its end, until nothing more goes, until nothing more is there, or
/// to a failure.
#[derive(Copy, Clone, Debug, PartialEq, Eq, Structural)]
pub enum Driven {
    Complete,
    Blocked,
    Idle,
    Failed,
}

/// Sending the messages of an answer and its end, as far as it goes.
pub open spec fn messages_driven(c: ConnView, id: u32, p: PendingView, len: usize) -> (
    ConnView,
    PendingView,
    usize,
    Driven,
)
    decreases
            p.messages.len(),
            (if p.messages.len() > 0 {
                p.messages[0].len() + frame::PREFIX_LEN - p.frame_pos
            } else {
                0
            }),
{
    if p.messages.len() == 0 {
        match p.trailers {
            None => (c, p, len, Driven::Idle),
            Some(list) => match model::response_sent(c, id, list, true) {
                (next, Err(_)) => (next, p, len, Driven::Failed),
                (next, Ok(_)) => (next, p, len, Driven::Complete),
            },
        }
    } else if p.messages[0].len() > u32::MAX || p.messages[0].len() + frame::PREFIX_LEN
        > usize::MAX {
        (c, p, len, Driven::Failed)
    } else {
        let whole = frame::framed(reply::plain(p.messages[0]));
        let rest = whole.skip(p.frame_pos as int);
        match model::data_sent(c, id, rest, false) {
            (next, Err(_)) => (next, p, len, Driven::Failed),
            (next, Ok(n)) => if n == 0 || n > rest.len() {
                (next, p, len, Driven::Blocked)
            } else {
                let sent = PendingView { remaining: less(p.remaining, n), ..p };
                if p.frame_pos + n == whole.len() {
                    messages_driven(
                        next,
                        id,
                        PendingView {
                            messages: p.messages.drop_first(),
                            batches: shorter(p.batches),
                            frame_pos: 0,
                            ..sent
                        },
                        less(len, n),
                    )
                } else if p.frame_pos + n < whole.len() {
                    messages_driven(
                        next,
                        id,
                        PendingView { frame_pos: (p.frame_pos + n) as nat, ..sent },
                        less(len, n),
                    )
                } else {
                    (next, p, len, Driven::Failed)
                }
            },
        }
    }
}

/// Sending an answer, as far as it goes.
pub open spec fn response_driven(c: ConnView, id: u32, p: PendingView, len: usize) -> (
    ConnView,
    PendingView,
    usize,
    Driven,
) {
    if p.headers_sent {
        messages_driven(c, id, p, len)
    } else {
        match model::response_sent(c, id, p.fields, false) {
            (next, Err(_)) => (next, p, len, Driven::Failed),
            (next, Ok(_)) => messages_driven(
                next,
                id,
                PendingView { headers_sent: true, ..p },
                len,
            ),
        }
    }
}

/// Sending what the first call in the queue has to send.
#[verifier::opaque]
pub open spec fn turn(v: CallsView, c: ConnView) -> (CallsView, ConnView) {
    let id = v.queue[0];
    let popped = CallsView { queue: v.queue.drop_first(), ..v };
    if !v.has(id) {
        (popped, c)
    } else {
        let call = CallView { queued: false, ..v.calls[id] };
        match call.pending {
            None => (popped.with(id, call), c),
            Some(p) => {
                let (next, left, len, out) = response_driven(c, id, p, v.pending_len);
                let open = CallsView {
                    pending_len: len,
                    replies: v.replies.fewer((p.batches.len() - left.batches.len()) as nat),
                    ..popped.with(id, CallView { pending: None, ..call })
                };
                let over = CallsView { replies: open.replies.fewer(left.batches.len()), ..open };
                let dropped = CallsView { pending_len: less(len, left.remaining), ..over };
                match out {
                    Driven::Complete => (emptied(over, id), next),
                    Driven::Idle => (open.with(id, CallView { pending: Some(left), ..call }), next),
                    Driven::Failed => (emptied(dropped, id), next),
                    Driven::Blocked => if open.queue.len() < open.queue_capacity {
                        (
                            CallsView {
                                queue: open.queue.push(id),
                                ..open.with(
                                    id,
                                    CallView { pending: Some(left), queued: true, ..call },
                                )
                            },
                            next,
                        )
                    } else {
                        (emptied(dropped, id), next)
                    },
                }
            },
        }
    }
}

/// Going once round `n` calls that have something to send.
pub open spec fn flushed(v: CallsView, c: ConnView, n: nat) -> (CallsView, ConnView)
    decreases n,
{
    if n == 0 || v.queue.len() == 0 {
        (v, c)
    } else {
        let (next, conn) = turn(v, c);
        flushed(next, conn, (n - 1) as nat)
    }
}

/// Going once round the calls that have something to send.
pub open spec fn pumped(v: ServerView) -> ServerView {
    let (calls, conn) = flushed(v.calls, v.conn, v.calls.queue.len());
    ServerView { calls, conn, ..v }
}

/// A failure is told: the call is gone, and its answer is an end with a status.
#[verifier::opaque]
pub open spec fn error_sent(v: ServerView, id: u32, s: StatusView) -> ServerView {
    let gone = ServerView {
        calls: removed(v.calls, id),
        routes: RoutesView { routes: v.routes.routes.remove(id), ..v.routes },
        ..v
    };
    let conn = match model::response_sent(v.conn, id, headers::response_head_fields(), false) {
        (next, Err(_)) => model::stream_reset(next, id, ErrorCode::InternalError).0,
        (next, Ok(_)) => model::response_sent(next, id, headers::trailer_head_fields(s), true).0,
    };
    ServerView { conn, ..gone }
}

/// A piece of an answer, or the failure to keep it.
pub open spec fn replied(v: ServerView, id: u32, r: ReplyView, place: bool) -> ServerView {
    match enqueued(v.calls, id, r, place) {
        (calls, Ok(_)) => ServerView { calls, ..v },
        (calls, Err(failure)) => error_sent(ServerView { calls, ..v }, id, failure),
    }
}

/// What a handler said, and the routes after that. `place` says whether a slab that may have given
/// slots up still has one.
pub struct Said {
    pub mode: StreamMode,
    pub reply: ReplyView,
    pub routes: RoutesView,
    pub place: bool,
}

/// The start of a request; `said` is what the handler said of it.
pub open spec fn head_served(
    v: ServerView,
    id: u32,
    fields: Seq<FieldView>,
    l: Limits,
    said: Said,
) -> ServerView {
    match headers::request_head(fields) {
        Err(failure) => error_sent(v, id, failure),
        Ok(head) => {
            let heard = ServerView { routes: said.routes, ..v };
            match inserted(heard.calls, id, new_stream(head, said.mode, l.max_message_len)) {
                (calls, false) => error_sent(
                    ServerView { calls, ..heard },
                    id,
                    exhausted("too many in-flight streams"),
                ),
                (calls, true) => replied(
                    ServerView { calls, ..heard },
                    id,
                    said.reply,
                    said.place,
                ),
            }
        },
    }
}

/// The fields at the end of a request.
pub open spec fn trailers_served(v: ServerView, id: u32, fields: Seq<FieldView>) -> ServerView {
    match headers::request_trailers(fields) {
        Err(failure) => error_sent(v, id, failure),
        Ok(trailers) => match v.calls.stream(id) {
            None => v,
            Some(s) => ServerView {
                calls: v.calls.with(
                    id,
                    CallView {
                        stream: Some(StreamView { trailers, ..s }),
                        ..v.calls.calls[id]
                    },
                ),
                ..v
            },
        },
    }
}

/// A message of a request; `said` is what the handler said of it where the request is served as
/// it comes. The result says whether the rest is read.
pub open spec fn message_served(v: ServerView, id: u32, m: FrameView, l: Limits, said: Said) -> (
    ServerView,
    bool,
) {
    match v.calls.stream(id) {
        None => (v, false),
        Some(s) => match s.mode {
            StreamMode::Live => if m.compressed {
                (error_sent(v, id, limits::compressed()), false)
            } else {
                (
                    pumped(
                        replied(
                            ServerView { routes: said.routes, ..v },
                            id,
                            said.reply,
                            said.place,
                        ),
                    ),
                    true,
                )
            },
            StreamMode::Buffered => match message_kept(v.calls, id, m, l, said.place) {
                None => (error_sent(v, id, exhausted("stream buffer limit exceeded")), false),
                Some(calls) => (ServerView { calls, ..v }, true),
            },
        },
    }
}

/// Bytes of a request. `frag` says whether there is a place for a message that is not complete,
/// once the pool has given out as many as it has; `said` is what the handler said of each message.
pub open spec fn data_served(
    v: ServerView,
    id: u32,
    data: Seq<u8>,
    l: Limits,
    frag: bool,
    said: Seq<Said>,
) -> ServerView
    decreases data.len(),
{
    if data.len() == 0 {
        pumped(v)
    } else {
        match v.calls.stream(id) {
            None => error_sent(v, id, internal("DATA before gRPC headers")),
            Some(s) => {
                let (d, rest, out) = frame::deframed(s.deframer, data, v.fragments.gives(frag));
                let read = ServerView {
                    calls: v.calls.with(
                        id,
                        CallView {
                            stream: Some(StreamView { deframer: d, ..s }),
                            ..v.calls.calls[id]
                        },
                    ),
                    fragments: frame::asked_for(v.fragments, s.deframer, data, frag),
                    ..v
                };
                match out {
                    Err(failure) => error_sent(read, id, status::frame_failure(failure)),
                    Ok(None) => pumped(read),
                    Ok(Some(m)) => match message_served(read, id, m, l, said[0]) {
                        (next, false) => next,
                        (next, true) => if rest.len() < data.len() {
                            data_served(next, id, rest, l, frag, said.drop_first())
                        } else {
                            next
                        },
                    },
                }
            },
        }
    }
}

/// What was said of a request that is complete.
pub struct Ended {
    pub said: Said,
    pub outcome: Result<ResponseView, StatusView>,
}

/// A whole answer, as a piece.
pub open spec fn whole(r: ResponseView) -> ReplyView {
    ReplyView {
        metadata: r.metadata,
        messages: r.messages,
        trailers: r.trailers,
        status: Some(r.status),
    }
}

/// A piece that ends an answer.
pub open spec fn ending(r: ReplyView) -> ReplyView {
    match r.status {
        Some(_) => r,
        None => ReplyView { status: Some(reply::okay()), ..r },
    }
}

/// The end of a request; `end` is what the handler said of it.
pub open spec fn end_served(v: ServerView, id: u32, end: Ended) -> ServerView {
    match v.calls.stream(id) {
        None => v,
        Some(s) => {
            let open = ServerView { calls: taken(v.calls, id), ..v };
            match s.mode {
                StreamMode::Live => pumped(
                    replied(
                        ServerView { routes: end.said.routes, ..open },
                        id,
                        ending(end.said.reply),
                        end.said.place,
                    ),
                ),
                StreamMode::Buffered => match end.outcome {
                    Ok(r) => pumped(replied(open, id, whole(r), end.said.place)),
                    Err(failure) => error_sent(open, id, failure),
                },
            }
        },
    }
}

/// What a handler said while an event was dealt with.
pub struct Script {
    pub start: Said,
    pub frag: bool,
    pub messages: Seq<Said>,
    pub end: Ended,
}

/// What an event brings about; `s` is what the handler said.
#[verifier::opaque]
pub open spec fn event_served(v: ServerView, event: EventView, l: Limits, s: Script) -> ServerView {
    match event {
        EventView::Headers { stream, fields, end_stream, trailing } => {
            let next = if trailing {
                trailers_served(v, stream, fields)
            } else {
                head_served(v, stream, fields, l, s.start)
            };
            if end_stream {
                end_served(next, stream, s.end)
            } else {
                next
            }
        },
        EventView::Data { stream, data, end_stream } => {
            let next = data_served(v, stream, data, l, s.frag, s.messages);
            if end_stream {
                end_served(next, stream, s.end)
            } else {
                next
            }
        },
        EventView::StreamReset { stream, error } => ServerView {
            calls: removed(v.calls, stream),
            routes: RoutesView { routes: v.routes.routes.remove(stream), ..v.routes },
            ..v
        },
        _ => v,
    }
}

/// Without the first event of the connection, of which data alone is kept.
pub open spec fn polled(v: ServerView) -> ServerView {
    ServerView {
        conn: v.conn.with_ingress(
            IngressView {
                events: v.conn.ingress.events.drop_first(),
                ..v.conn.ingress
            }.keeping_data(v.conn.ingress.events[0]),
        ),
        ..v
    }
}

/// After the place that an event holds was given back, where it is not kept.
pub open spec fn freed(v: ServerView, event: EventView) -> ServerView {
    ServerView { conn: v.conn.with_ingress(v.conn.ingress.keeping_data(event)), ..v }
}

/// What `n` events bring about.
pub open spec fn handled(v: ServerView, n: nat, l: Limits, scripts: Seq<Script>) -> ServerView
    decreases n,
{
    if n == 0 {
        v
    } else {
        handled(
            event_served(polled(v), v.conn.ingress.events[0], l, scripts[0]),
            (n - 1) as nat,
            l,
            scripts.drop_first(),
        )
    }
}

/// What handlers and pools answer while a server goes once round.
pub struct Round {
    pub scripts: Seq<Script>,
    pub frames: Seq<Chance>,
}

/// Dealing with events and sending what waits, for as long as the connection had to stop for
/// want of room and gets on; the result is the failure at which it stopped. `None` where there
/// are more rounds than `rounds` tells of.
pub open spec fn driven(
    v: ServerView,
    result: Result<(), ConnError>,
    l: Limits,
    rounds: Seq<Round>,
) -> Option<(ServerView, Option<ConnError>)>
    decreases rounds.len(),
{
    if rounds.len() == 0 {
        None
    } else {
        let count = v.conn.ingress.events.len();
        let next = pumped(handled(v, count, l, rounds[0].scripts));
        match result {
            Ok(_) => Some((next, None)),
            Err(failure) => if failure == ConnError::Overload && count != 0 {
                let (conn, again) = model::resumed(next.conn, true, rounds[0].frames);
                driven(ServerView { conn, ..next }, again, l, rounds.drop_first())
            } else {
                Some((next, Some(failure)))
            },
        }
    }
}

/// A connection that has come to its end takes nothing.
pub open spec fn at_end(c: ConnView) -> bool {
    c.goaway_sent || c.goaway_received is Some
}

/// Bytes from the peer: what the connection makes of them, and what comes of that.
pub open spec fn served(
    v: ServerView,
    o: model::Outcome,
    l: Limits,
    rounds: Seq<Round>,
) -> Option<(ServerView, Option<ConnError>)> {
    driven(ServerView { conn: o.0, ..v }, o.1, l, rounds)
}

/// A failure of the connection is told before it is closed.
pub open spec fn given_up(v: ServerView, failure: Option<ConnError>) -> ServerView {
    match failure {
        None => v,
        Some(error) => ServerView {
            conn: model::went_away(v.conn, crate::h2::error::code_for(error), Seq::empty()).0,
            ..v
        },
    }
}

} // verus!
