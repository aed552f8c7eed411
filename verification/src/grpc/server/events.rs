//! Every event of the connection is dealt with, once and in order.

use crate::grpc::frame;
use crate::grpc::frame::FrameView;
use crate::grpc::headers;
use crate::grpc::server::app;
use crate::grpc::server::limits::Limits;
use crate::grpc::server::model;
use crate::grpc::server::model::{CallView, Ended, Round, Said, Script, ServerView, StreamView};
use crate::grpc::server::reply::{ReplyView, StreamMode};
use crate::grpc::status::StatusView;
use crate::h2::conn;
use crate::h2::event::EventView;
use vstd::prelude::*;

verus! {

#[verifier::rlimit(60)]
proof fn lemma_error(v: ServerView, id: u32, s: StatusView)
    ensures
        model::error_sent(v, id, s).conn.ingress == v.conn.ingress,
{
    reveal(model::error_sent);
    conn::model::lemma_sending_keeps_ingress(v.conn, id);
    let next = conn::model::response_sent(
        v.conn,
        id,
        headers::response_head_fields(),
        false,
    ).0;
    conn::model::lemma_sending_keeps_ingress(next, id);
}

#[verifier::rlimit(60)]
proof fn lemma_pumped(v: ServerView)
    ensures
        model::pumped(v).conn.ingress == v.conn.ingress,
{
    app::lemma_flushing_keeps_ingress(v.calls, v.conn, v.calls.queue.len());
}

proof fn lemma_replied(v: ServerView, id: u32, r: ReplyView, place: bool)
    ensures
        model::replied(v, id, r, place).conn.ingress == v.conn.ingress,
{
    if let (calls, Err(failure)) = model::enqueued(v.calls, id, r, place) {
        lemma_error(ServerView { calls, ..v }, id, failure);
    }
}

#[verifier::rlimit(60)]
proof fn lemma_message(v: ServerView, id: u32, m: FrameView, l: Limits, said: Said)
    ensures
        model::message_served(v, id, m, l, said).0.conn.ingress == v.conn.ingress,
{
    lemma_error(v, id, crate::grpc::server::limits::compressed());
    lemma_error(v, id, model::exhausted("stream buffer limit exceeded"));
    let heard = ServerView { routes: said.routes, ..v };
    lemma_replied(heard, id, said.reply, said.place);
    lemma_pumped(model::replied(heard, id, said.reply, said.place));
}

#[verifier::rlimit(60)]
proof fn lemma_data(v: ServerView, id: u32, data: Seq<u8>, l: Limits, frag: bool, said: Seq<Said>)
    ensures
        model::data_served(v, id, data, l, frag, said).conn.ingress == v.conn.ingress,
    decreases data.len(),
{
    if data.len() == 0 {
        lemma_pumped(v);
    } else if v.calls.stream(id) is None {
        lemma_error(v, id, model::internal("DATA before gRPC headers"));
    } else {
        let s = v.calls.stream(id)->0;
        let (d, rest, out) = frame::deframed(s.deframer, data, v.fragments.gives(frag));
        let read = ServerView {
            calls: v.calls.with(
                id,
                CallView {
                    stream: Some(StreamView { deframer: d, ..s }),
                    ..v.calls.calls[id]
                },
            ),
            fragments: frame::asked_for(v.fragments, s.deframer, data, frag),
            ..v
        };
        match out {
            Err(failure) => lemma_error(read, id, crate::grpc::status::frame_failure(failure)),
            Ok(None) => lemma_pumped(read),
            Ok(Some(m)) => {
                lemma_message(read, id, m, l, said[0]);
                let (next, more) = model::message_served(read, id, m, l, said[0]);
                if more && rest.len() < data.len() {
                    lemma_data(next, id, rest, l, frag, said.drop_first());
                }
            },
        }
    }
}

#[verifier::rlimit(60)]
proof fn lemma_end(v: ServerView, id: u32, end: Ended)
    ensures
        model::end_served(v, id, end).conn.ingress == v.conn.ingress,
{
    if let Some(s) = v.calls.stream(id) {
        let open = ServerView { calls: model::taken(v.calls, id), ..v };
        match s.mode {
            StreamMode::Live => {
                let heard = ServerView { routes: end.said.routes, ..open };
                let last = model::ending(end.said.reply);
                lemma_replied(heard, id, last, end.said.place);
                lemma_pumped(model::replied(heard, id, last, end.said.place));
            },
            StreamMode::Buffered => match end.outcome {
                Ok(r) => {
                    lemma_replied(open, id, model::whole(r), end.said.place);
                    lemma_pumped(model::replied(open, id, model::whole(r), end.said.place));
                },
                Err(failure) => lemma_error(open, id, failure),
            },
        }
    }
}

#[verifier::rlimit(60)]
proof fn lemma_event(v: ServerView, event: EventView, l: Limits, s: Script)
    ensures
        model::event_served(v, event, l, s).conn.ingress == v.conn.ingress,
{
    reveal(model::event_served);
    match event {
        EventView::Headers { stream, fields, end_stream, trailing } => {
            let next = if trailing {
                model::trailers_served(v, stream, fields)
            } else {
                model::head_served(v, stream, fields, l, s.start)
            };
            if trailing {
                if let Err(failure) = headers::request_trailers(fields) {
                    lemma_error(v, stream, failure);
                }
            } else {
                match headers::request_head(fields) {
                    Err(failure) => lemma_error(v, stream, failure),
                    Ok(head) => {
                        let heard = ServerView { routes: s.start.routes, ..v };
                        let (calls, kept) = model::inserted(
                            heard.calls,
                            stream,
                            model::new_stream(head, s.start.mode, l.max_message_len),
                        );
                        let open = ServerView { calls, ..heard };
                        lemma_error(open, stream, model::exhausted("too many in-flight streams"));
                        lemma_replied(open, stream, s.start.reply, s.start.place);
                    },
                }
            }
            lemma_end(next, stream, s.end);
        },
        EventView::Data { stream, data, end_stream } => {
            lemma_data(v, stream, data, l, s.frag, s.messages);
            lemma_end(
                model::data_served(v, stream, data, l, s.frag, s.messages),
                stream,
                s.end,
            );
        },
        _ => {},
    }
}

/// Dealing with some events takes them from the front of those that there are, and leaves the rest
/// in order.
pub proof fn law_events_are_dealt_with_in_order(
    v: ServerView,
    n: nat,
    l: Limits,
    scripts: Seq<Script>,
)
    requires
        n <= v.conn.ingress.events.len(),
    ensures
        model::handled(v, n, l, scripts).conn.ingress.events == v.conn.ingress.events.skip(
            n as int,
        ),
        model::handled(v, n, l, scripts).conn.ingress.input == v.conn.ingress.input,
    decreases n,
{
    let events = v.conn.ingress.events;
    if n == 0 {
        assert(events.skip(0) =~= events);
    } else {
        let w = model::polled(v);
        assert(w.conn.ingress.events == events.drop_first());
        lemma_event(w, events[0], l, scripts[0]);
        let next = model::event_served(w, events[0], l, scripts[0]);
        law_events_are_dealt_with_in_order(next, (n - 1) as nat, l, scripts.drop_first());
        assert(events.drop_first().skip(n - 1) =~= events.skip(n as int));
    }
}

/// No event is left once bytes of the peer were dealt with.
#[verifier::rlimit(60)]
pub proof fn law_no_event_is_left(v: ServerView, l: Limits, rounds: Seq<Round>)
    requires
        rounds.len() > 0,
    ensures
        model::driven(v, Ok(()), l, rounds) matches Some((w, r)) && r is None
            && w.conn.ingress.events.len() == 0,
{
    let n = v.conn.ingress.events.len();
    law_events_are_dealt_with_in_order(v, n, l, rounds[0].scripts);
    lemma_pumped(model::handled(v, n, l, rounds[0].scripts));
}

} // verus!
