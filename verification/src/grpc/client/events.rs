//! Every event of the connection is dealt with, once and in order, up to the first failure.

use crate::grpc::client::model;
use crate::grpc::client::model::{CallView, ClientView, InboxView, Round};
use crate::grpc::client::session;
use crate::grpc::frame;
use crate::h2::conn;
use crate::h2::event::EventView;
use vstd::prelude::*;

verus! {

proof fn lemma_data(v: ClientView, id: u32, data: Seq<u8>, place: bool)
    ensures
        model::data_taken(v, id, data, place).0.conn == v.conn,
    decreases
            (if v.calls.has(id) {
                v.inbox.max_msgs - v.calls.calls[id].message_count
            } else {
                0
            }),
{
    if data.len() > 0 && v.calls.has(id) {
        let call = v.calls.calls[id];
        let (d, rest, out) = frame::deframed(call.deframer, data, v.inbox.fragments.gives(place));
        let read = ClientView {
            calls: v.calls.with(id, CallView { deframer: d, ..call }),
            inbox: InboxView {
                fragments: frame::asked_for(v.inbox.fragments, call.deframer, data, place),
                ..v.inbox
            },
            ..v
        };
        if let Ok(Some(m)) = out {
            let (next, r) = model::message_taken(read, id, m);
            assert(next.conn == v.conn);
            if r is Ok {
                lemma_data(next, id, rest, place);
            }
        }
    }
}

#[verifier::rlimit(60)]
proof fn lemma_event(v: ClientView, event: EventView, place: bool)
    ensures
        model::event_taken(v, event, place).0.conn.ingress == v.conn.ingress,
{
    reveal(model::event_taken);
    if let EventView::Data { stream, data, end_stream } = event {
        lemma_data(v, stream, data, place);
        conn::model::lemma_sending_keeps_ingress(v.conn, stream);
    }
}

/// Dealing with some events takes them from the front of those that there are, and leaves the rest
/// in order.
pub proof fn law_events_are_dealt_with_in_order(v: ClientView, n: nat, places: Seq<bool>)
    requires
        n <= v.conn.ingress.events.len(),
    ensures
        model::handled(v, n, places).1 is Ok ==> model::handled(
            v,
            n,
            places,
        ).0.conn.ingress.events == v.conn.ingress.events.skip(n as int),
    decreases n,
{
    let events = v.conn.ingress.events;
    if n == 0 {
        assert(events.skip(0) =~= events);
    } else {
        let w = model::polled(v);
        assert(w.conn.ingress.events == events.drop_first());
        lemma_event(w, events[0], places[0]);
        let (next, r) = model::event_taken(w, events[0], places[0]);
        if r is Ok {
            law_events_are_dealt_with_in_order(next, (n - 1) as nat, places.drop_first());
            assert(events.drop_first().skip(n - 1) =~= events.skip(n as int));
        }
    }
}

/// No event is left once bytes of the peer were dealt with and nothing has failed.
pub proof fn law_no_event_is_left(v: ClientView, rounds: Seq<Round>)
    requires
        rounds.len() > 0,
    ensures
        model::driven(v, Ok(()), rounds) matches Some((w, r)) && (r is Ok
            ==> w.conn.ingress.events.len() == 0),
{
    let n = v.conn.ingress.events.len();
    law_events_are_dealt_with_in_order(v, n, rounds[0].events);
    let (next, r) = model::handled(v, n, rounds[0].events);
    session::lemma_flushing_keeps_ingress(next.calls, next.conn, next.calls.pending.len());
}

} // verus!
