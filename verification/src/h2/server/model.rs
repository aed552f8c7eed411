//! What a server does with a connection, as functions of its state.

use crate::h2::conn::model;
use crate::h2::conn::model::ConnView;
use crate::h2::error::ConnError;
use crate::h2::event::EventView;
use crate::h2::frame::ErrorCode;
use crate::h2::hpack::FieldView;
use crate::h2::ingress::IngressView;
use crate::h2::server::config::Limits;
use vstd::prelude::*;

verus! {

/// A request: its fields and its body.
#[verifier::ext_equal]
pub struct RequestView {
    pub fields: Seq<FieldView>,
    pub body: Seq<u8>,
}

/// A response: its fields, its body and its trailers.
#[verifier::ext_equal]
pub struct ResponseView {
    pub fields: Seq<FieldView>,
    pub body: Seq<u8>,
    pub trailers: Seq<FieldView>,
}

/// What is left to send of a response.
#[verifier::ext_equal]
pub struct PendingView {
    pub stream: u32,
    pub body: Seq<u8>,
    pub offset: nat,
    pub stalled: bool,
    pub trailers: Seq<FieldView>,
    pub trailers_sent: bool,
}

/// What is done with a request.
pub enum DispatchView {
    Response(ResponseView),
    Pending,
    Reset(ErrorCode),
}

/// A connection that is served: requests that are not complete, responses that are not sent.
#[verifier::ext_equal]
pub struct ServerView {
    pub conn: ConnView,
    pub incoming: Map<u32, RequestView>,
    pub capacity: nat,
    pub pending: Seq<PendingView>,
    pub pending_capacity: nat,
    pub buffered: nat,
}

/// A connection on which nothing was asked yet: there is room for as many requests as streams
/// may be open at once.
pub open spec fn fresh(conn: ConnView) -> ServerView {
    let capacity: nat = match conn.local.max_concurrent_streams {
        Some(n) => if n > 1 {
            n as nat
        } else {
            1
        },
        None => 1,
    };
    ServerView {
        conn,
        incoming: Map::empty(),
        capacity,
        pending: Seq::empty(),
        pending_capacity: capacity,
        buffered: 0,
    }
}

impl ServerView {
    pub open spec fn with_conn(self, conn: ConnView) -> ServerView {
        ServerView { conn, ..self }
    }
}

/// Resetting a stream, whether or not that finds room.
pub open spec fn reset(v: ServerView, id: u32, error: ErrorCode) -> ServerView {
    v.with_conn(model::stream_reset(v.conn, id, error).0)
}

/// Sending the trailers of a response that has any.
pub open spec fn trailed(c: ConnView, p: PendingView) -> (
    ConnView,
    PendingView,
    Result<(), ConnError>,
) {
    if p.trailers.len() == 0 || p.trailers_sent {
        (c, p, Ok(()))
    } else {
        match model::response_sent(c, p.stream, p.trailers, true) {
            (next, Err(failure)) => (next, p, Err(failure)),
            (next, Ok(_)) => (next, PendingView { trailers_sent: true, ..p }, Ok(())),
        }
    }
}

/// Sending as much of a response as goes, while less than `limit` bytes wait in one piece;
/// the result says whether all of it was sent.
pub open spec fn pumped(c: ConnView, p: PendingView, limit: int) -> (
    ConnView,
    PendingView,
    Result<bool, ConnError>,
)
    decreases p.body.len() - p.offset,
{
    if p.offset >= p.body.len() {
        match trailed(c, p) {
            (next, done, Err(failure)) => (next, done, Err(failure)),
            (next, done, Ok(_)) => (next, done, Ok(true)),
        }
    } else if c.egress.first_len() >= limit {
        (c, PendingView { stalled: false, ..p }, Ok(false))
    } else {
        let rest = p.body.subrange(p.offset as int, p.body.len() as int);
        match model::data_sent(c, p.stream, rest, p.trailers.len() == 0) {
            (next, Err(failure)) => (next, p, Err(failure)),
            (next, Ok(written)) => if written == 0 || written > rest.len() {
                (next, PendingView { stalled: true, ..p }, Ok(false))
            } else {
                pumped(next, PendingView { offset: p.offset + written as nat, ..p }, limit)
            },
        }
    }
}

/// A request that is taken out of those that are not complete.
pub open spec fn taken(v: ServerView, id: u32) -> ServerView {
    if v.incoming.contains_key(id) {
        let len = v.incoming[id].body.len();
        ServerView {
            incoming: v.incoming.remove(id),
            buffered: if len <= v.buffered {
                (v.buffered - len) as nat
            } else {
                0
            },
            ..v
        }
    } else {
        v
    }
}

/// The sum of two lengths, as far as the machine counts.
pub open spec fn capped(a: nat, b: nat) -> nat {
    if a + b > usize::MAX {
        usize::MAX as nat
    } else {
        a + b
    }
}

/// Data for a request: with it the request may be complete. A request that is too long is
/// reset.
pub open spec fn data_buffered(
    v: ServerView,
    id: u32,
    data: Seq<u8>,
    end_stream: bool,
    limits: Limits,
) -> (ServerView, Option<RequestView>) {
    if !v.incoming.contains_key(id) {
        (v, None)
    } else {
        let request = v.incoming[id];
        if capped(request.body.len(), data.len()) > limits.max_request_body_bytes || capped(
            v.buffered,
            data.len(),
        ) > limits.max_connection_body_bytes {
            (reset(taken(v, id), id, ErrorCode::EnhanceYourCalm), None)
        } else {
            let whole = RequestView { body: request.body + data, ..request };
            let next = ServerView {
                incoming: v.incoming.insert(id, whole),
                buffered: capped(v.buffered, data.len()),
                ..v
            };
            if end_stream {
                (taken(next, id), Some(whole))
            } else {
                (next, None)
            }
        }
    }
}

/// Starting a response.
pub open spec fn responded(v: ServerView, id: u32, r: ResponseView, limits: Limits) -> ServerView {
    let ends = r.body.len() == 0 && r.trailers.len() == 0;
    if !v.conn.has_stream(id) {
        v
    } else {
        match model::response_sent(v.conn, id, r.fields, ends) {
            (next, Err(_)) => v.with_conn(next),
            (next, Ok(_)) => if ends {
                v.with_conn(next)
            } else {
                let p = PendingView {
                    stream: id,
                    body: r.body,
                    offset: 0,
                    stalled: false,
                    trailers: r.trailers,
                    trailers_sent: false,
                };
                let (c, left, done) = pumped(next, p, limits.max_outbound_bytes as int);
                if done == Ok::<bool, ConnError>(true) {
                    v.with_conn(c)
                } else if v.pending.len() < v.pending_capacity {
                    ServerView { conn: c, pending: v.pending.push(left), ..v }
                } else {
                    reset(v.with_conn(c), id, ErrorCode::EnhanceYourCalm)
                }
            },
        }
    }
}

/// What the owner of the server has decided of a request.
#[verifier::opaque]
pub open spec fn delivered(v: ServerView, id: u32, d: DispatchView, limits: Limits) -> ServerView {
    match d {
        DispatchView::Response(r) => responded(v, id, r, limits),
        DispatchView::Pending => v,
        DispatchView::Reset(error) => reset(v, id, error),
    }
}

/// Without the responses to a stream.
pub open spec fn dropped(pending: Seq<PendingView>, id: u32) -> Seq<PendingView> {
    pending.filter(|p: PendingView| p.stream != id)
}

/// What an event brings about, and the request that is complete with it.
#[verifier::opaque]
pub open spec fn event_taken(v: ServerView, event: EventView, limits: Limits) -> (
    ServerView,
    Option<(u32, RequestView)>,
) {
    match event {
        EventView::Headers { stream, fields, end_stream, trailing } => if trailing {
            if v.incoming.contains_key(stream) {
                let request = v.incoming[stream];
                let all = request.fields + fields;
                if crate::h2::event::block_fits(all, v.conn.local.max_header_list_size) {
                    (taken(v, stream), Some((stream, RequestView { fields: all, ..request })))
                } else {
                    (reset(taken(v, stream), stream, ErrorCode::EnhanceYourCalm), None)
                }
            } else {
                (v, None)
            }
        } else if end_stream {
            (v, Some((stream, RequestView { fields, body: Seq::empty() })))
        } else if !v.incoming.contains_key(stream) && v.incoming.len() < v.capacity {
            (
                ServerView {
                    incoming: v.incoming.insert(
                        stream,
                        RequestView { fields, body: Seq::empty() },
                    ),
                    ..v
                },
                None,
            )
        } else {
            (reset(v, stream, ErrorCode::EnhanceYourCalm), None)
        },
        EventView::Data { stream, data, end_stream } => {
            let (next, done) = data_buffered(v, stream, data, end_stream, limits);
            (
                next,
                match done {
                    Some(request) => Some((stream, request)),
                    None => None,
                },
            )
        },
        EventView::StreamReset { stream, error } => (
            ServerView { pending: dropped(v.pending, stream), ..taken(v, stream) },
            None,
        ),
        _ => (v, None),
    }
}

/// Going once round `n` responses that are not sent.
pub open spec fn round(v: ServerView, n: nat, limits: Limits, resume: bool) -> ServerView
    decreases n,
{
    if n == 0 || v.pending.len() == 0 {
        v
    } else {
        let first = v.pending[0];
        let p = PendingView { stalled: first.stalled && !resume, ..first };
        let rest = v.pending.drop_first();
        let limit = limits.max_outbound_bytes as int;
        let next = if p.stalled || v.conn.egress.first_len() >= limit {
            ServerView { pending: rest.push(p), ..v }
        } else {
            let (c, left, done) = pumped(v.conn, p, limit);
            ServerView {
                conn: c,
                pending: if done == Ok::<bool, ConnError>(false) {
                    rest.push(left)
                } else {
                    rest
                },
                ..v
            }
        };
        round(next, (n - 1) as nat, limits, resume)
    }
}

/// Going on with responses once a window has opened.
#[verifier::opaque]
pub open spec fn woken(v: ServerView, limits: Limits) -> ServerView {
    let next = v.with_conn(ConnView { opened: false, ..v.conn });
    if v.conn.opened {
        round(next, next.pending.len(), limits, true)
    } else {
        next
    }
}

/// Without the first event, of which the header fields of a request alone are kept.
pub open spec fn polled(v: ServerView) -> ServerView {
    v.with_conn(
        v.conn.with_ingress(
            IngressView {
                events: v.conn.ingress.events.drop_first(),
                ..v.conn.ingress
            }.keeping_headers(v.conn.ingress.events[0]),
        ),
    )
}

/// After the place that an event holds was given back, where it is not kept.
pub open spec fn freed(v: ServerView, event: EventView) -> ServerView {
    v.with_conn(v.conn.with_ingress(v.conn.ingress.keeping_headers(event)))
}

/// What `n` events bring about. `replies` holds what the owner of the server decides, an
/// entry for every event, used where a request is complete with it.
pub open spec fn handled(v: ServerView, n: nat, limits: Limits, replies: Seq<DispatchView>) -> ServerView
    decreases n,
{
    if n == 0 {
        v
    } else {
        let (next, done) = event_taken(polled(v), v.conn.ingress.events[0], limits);
        let after = match done {
            Some((id, request)) => delivered(next, id, replies[0], limits),
            None => next,
        };
        handled(after, (n - 1) as nat, limits, replies.drop_first())
    }
}

/// What all events bring about.
pub open spec fn drained(v: ServerView, limits: Limits, replies: Seq<DispatchView>) -> ServerView {
    woken(handled(v, v.conn.ingress.events.len(), limits, replies), limits)
}

} // verus!
