//! What handlers are told while a server deals with events.

use crate::collections::Supply;
use crate::grpc::frame;
use crate::grpc::frame::FrameView;
use crate::grpc::headers;
use crate::grpc::headers::RequestHead;
use crate::grpc::server::limits;
use crate::grpc::server::limits::Limits;
use crate::grpc::server::model;
use crate::grpc::server::model::{CallView, Ended, Round, Said, Script, ServerView, StreamView};
use crate::grpc::server::reply;
use crate::grpc::server::reply::{Response, ResponseView, RoutesView, StreamMode};
use crate::grpc::server::routes::{Handler, Talk};
use crate::grpc::status::{Status, StatusView};
use crate::h2::conn::model as conn_model;
use crate::h2::conn::model::Chance;
use crate::h2::error::ConnError;
use crate::h2::event::EventView;
use crate::h2::hpack::FieldView;
use vstd::prelude::*;

verus! {

/// A handler before it says anything.
pub open spec fn unheard<H>(handler: H, context: (), routes: RoutesView) -> Talk<H, ()> {
    Talk { handler, context, routes, reply: reply::silent(None) }
}

/// A handler after it has said something.
pub open spec fn spoken<H>(handler: H, context: (), said: Said) -> Talk<H, ()> {
    Talk { handler, context, routes: said.routes, reply: said.reply }
}

/// Whether a handler was told of the start of a request, and said `said`.
pub open spec fn head_told<H: Handler<()>>(
    v: ServerView,
    id: u32,
    fields: Seq<FieldView>,
    said: Said,
    before: H,
    after: H,
) -> bool {
    match headers::request_head(fields) {
        Err(_) => after == before,
        Ok(head) => H::starts(
            unheard(before, (), v.routes),
            id,
            head,
            spoken(after, (), said),
            said.mode,
        ),
    }
}

/// Whether a handler was told of a message of a request that is served as it comes, and said
/// `said`.
pub open spec fn message_told<H: Handler<()>>(
    v: ServerView,
    id: u32,
    m: FrameView,
    said: Said,
    before: H,
    after: H,
) -> bool {
    match v.calls.stream(id) {
        None => after == before,
        Some(s) => if s.mode == StreamMode::Live && !m.compressed {
            H::hears(unheard(before, (), v.routes), id, m, spoken(after, (), said))
        } else {
            after == before
        },
    }
}

/// A server that has read more bytes of a request; `fragments` is what the pool has given.
pub open spec fn read_on(
    v: ServerView,
    id: u32,
    s: StreamView,
    d: frame::DeframerView,
    fragments: Supply,
) -> ServerView {
    ServerView {
        fragments,
        calls: v.calls.with(
            id,
            CallView { stream: Some(StreamView { deframer: d, ..s }), ..v.calls.calls[id] },
        ),
        ..v
    }
}

/// Whether a handler was told of the messages in the bytes of a request, in order; `handlers`
/// holds how it stood after each.
pub open spec fn data_told<H: Handler<()>>(
    v: ServerView,
    id: u32,
    data: Seq<u8>,
    l: Limits,
    frag: bool,
    said: Seq<Said>,
    before: H,
    handlers: Seq<H>,
    after: H,
) -> bool
    decreases data.len(),
{
    if data.len() == 0 {
        after == before
    } else {
        match v.calls.stream(id) {
            None => after == before,
            Some(s) => {
                let (d, rest, out) = frame::deframed(s.deframer, data, v.fragments.gives(frag));
                let fragments = frame::asked_for(v.fragments, s.deframer, data, frag);
                let read = read_on(v, id, s, d, fragments);
                match out {
                    Err(_) => after == before,
                    Ok(None) => after == before,
                    Ok(Some(m)) => {
                        &&& handlers.len() > 0
                        &&& message_told(read, id, m, said[0], before, handlers[0])
                        &&& match model::message_served(read, id, m, l, said[0]) {
                            (_, false) => after == handlers[0],
                            (next, true) => if rest.len() < data.len() {
                                data_told(
                                    next,
                                    id,
                                    rest,
                                    l,
                                    frag,
                                    said.drop_first(),
                                    handlers[0],
                                    handlers.drop_first(),
                                    after,
                                )
                            } else {
                                after == handlers[0]
                            },
                        }
                    },
                }
            },
        }
    }
}

/// What came of a request, as numbers, byte strings and fields.
pub open spec fn outcome_view(r: Result<Response, Status>) -> Result<ResponseView, StatusView> {
    match r {
        Ok(response) => Ok(response@),
        Err(s) => Err(s@),
    }
}

/// Whether a request that waited until it was complete was put to a handler as it came, unless
/// it is compressed.
pub open spec fn put<H: Handler<()>>(
    id: u32,
    s: StreamView,
    before: H,
    after: H,
    r: Result<ResponseView, StatusView>,
) -> bool {
    exists|head: RequestHead, given: Result<Response, Status>|
        head@ == s.head && r == outcome_view(given) && #[trigger] limits::dispatched::<H>(
            before,
            id,
            head,
            s.messages,
            s.trailers,
            after,
            given,
        )
}

/// Whether a handler was told of the end of a request, and said `end`.
pub open spec fn end_told<H: Handler<()>>(
    v: ServerView,
    id: u32,
    end: Ended,
    before: H,
    after: H,
) -> bool {
    match v.calls.stream(id) {
        None => after == before,
        Some(s) => match s.mode {
            StreamMode::Live => H::closes(
                unheard(before, (), v.routes),
                id,
                s.trailers,
                spoken(after, (), end.said),
            ),
            StreamMode::Buffered => put(id, s, before, after, end.outcome),
        },
    }
}

/// How a handler stood while an event was dealt with: after each message in it, before the end
/// of the request, and after the event.
pub struct Voice<H> {
    pub messages: Seq<H>,
    pub open: H,
    pub after: H,
}

/// Whether a handler was told of what an event brings, and said what `s` holds.
#[verifier::opaque]
pub open spec fn event_told<H: Handler<()>>(
    v: ServerView,
    event: EventView,
    l: Limits,
    s: Script,
    before: H,
    voice: Voice<H>,
) -> bool {
    match event {
        EventView::Headers { stream, fields, end_stream, trailing } => {
            let next = if trailing {
                model::trailers_served(v, stream, fields)
            } else {
                model::head_served(v, stream, fields, l, s.start)
            };
            &&& if trailing {
                voice.open == before
            } else {
                head_told(v, stream, fields, s.start, before, voice.open)
            }
            &&& if end_stream {
                end_told(next, stream, s.end, voice.open, voice.after)
            } else {
                voice.after == voice.open
            }
        },
        EventView::Data { stream, data, end_stream } => {
            let next = model::data_served(v, stream, data, l, s.frag, s.messages);
            &&& data_told(
                v,
                stream,
                data,
                l,
                s.frag,
                s.messages,
                before,
                voice.messages,
                voice.open,
            )
            &&& if end_stream {
                end_told(next, stream, s.end, voice.open, voice.after)
            } else {
                voice.after == voice.open
            }
        },
        _ => voice.after == before,
    }
}

/// Whether an event was dealt with: what came of it, and what the handler was told.
pub open spec fn event_dealt<H: Handler<()>>(
    v: ServerView,
    event: EventView,
    l: Limits,
    s: Script,
    before: H,
    voice: Voice<H>,
    w: ServerView,
    after: H,
) -> bool {
    &&& w == model::event_served(v, event, l, s)
    &&& event_told(v, event, l, s, before, voice)
    &&& after == voice.after
}

/// Whether a handler was told of what `n` events bring, in order.
pub open spec fn all_told<H: Handler<()>>(
    v: ServerView,
    n: nat,
    l: Limits,
    scripts: Seq<Script>,
    before: H,
    voices: Seq<Voice<H>>,
    after: H,
) -> bool
    decreases n,
{
    if n == 0 {
        after == before
    } else {
        &&& scripts.len() > 0
        &&& voices.len() > 0
        &&& event_told(
            model::polled(v),
            v.conn.ingress.events[0],
            l,
            scripts[0],
            before,
            voices[0],
        )
        &&& all_told(
            model::event_served(model::polled(v), v.conn.ingress.events[0], l, scripts[0]),
            (n - 1) as nat,
            l,
            scripts.drop_first(),
            voices[0].after,
            voices.drop_first(),
            after,
        )
    }
}

/// Whether all events were dealt with: what came of them, and what the handler was told.
pub open spec fn all_dealt<H: Handler<()>>(
    v: ServerView,
    l: Limits,
    scripts: Seq<Script>,
    before: H,
    voices: Seq<Voice<H>>,
    w: ServerView,
    after: H,
) -> bool {
    &&& w == model::handled(v, v.conn.ingress.events.len(), l, scripts)
    &&& all_told(v, v.conn.ingress.events.len(), l, scripts, before, voices, after)
}

/// How a handler stood while a server went once round: after each event, and after the round.
pub struct Stage<H> {
    pub voices: Seq<Voice<H>>,
    pub after: H,
}

/// Whether a handler was told of all events, for as long as the connection had to stop for want
/// of room and got on.
pub open spec fn run_told<H: Handler<()>>(
    v: ServerView,
    result: Result<(), ConnError>,
    l: Limits,
    rounds: Seq<Round>,
    before: H,
    stages: Seq<Stage<H>>,
    after: H,
) -> bool
    decreases rounds.len(),
{
    if rounds.len() == 0 || stages.len() == 0 {
        false
    } else {
        let count = v.conn.ingress.events.len();
        let next = model::pumped(model::handled(v, count, l, rounds[0].scripts));
        &&& all_told(
            v,
            count,
            l,
            rounds[0].scripts,
            before,
            stages[0].voices,
            stages[0].after,
        )
        &&& if result == Err::<(), ConnError>(ConnError::Overload) && count != 0 {
            let (conn, again) = conn_model::resumed(next.conn, true, rounds[0].frames);
            run_told(
                ServerView { conn, ..next },
                again,
                l,
                rounds.drop_first(),
                stages[0].after,
                stages.drop_first(),
                after,
            )
        } else {
            after == stages[0].after
        }
    }
}

/// Whether events were dealt with and answers sent: what came of it, and what the handler was
/// told.
pub open spec fn run_dealt<H: Handler<()>>(
    v: ServerView,
    result: Result<(), ConnError>,
    l: Limits,
    rounds: Seq<Round>,
    before: H,
    stages: Seq<Stage<H>>,
    w: ServerView,
    r: Option<ConnError>,
    after: H,
) -> bool {
    &&& model::driven(v, result, l, rounds) == Some((w, r))
    &&& run_told(v, result, l, rounds, before, stages, after)
}

/// Whether bytes from the peer were dealt with: what came of them, and what the handler was
/// told. `chances` is what the connection leaves open.
pub open spec fn bytes_dealt<H: Handler<()>>(
    v: ServerView,
    bytes: Seq<u8>,
    l: Limits,
    chances: Seq<Chance>,
    rounds: Seq<Round>,
    before: H,
    stages: Seq<Stage<H>>,
    w: ServerView,
    r: Option<ConnError>,
    after: H,
) -> bool {
    let (conn, result) = conn_model::ingested(v.conn, true, bytes, chances);
    run_dealt(ServerView { conn, ..v }, result, l, rounds, before, stages, w, r, after)
}

} // verus!
