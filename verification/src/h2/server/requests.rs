//! How requests begin and end, and how whole responses go out.

use crate::h2::conn;
use crate::h2::conn::answers;
use crate::h2::conn::laws;
use crate::h2::conn::model::ConnView;
use crate::h2::conn::sent;
use crate::h2::egress;
use crate::h2::error::ConnError;
use crate::h2::event::EventView;
use crate::h2::frame;
use crate::h2::frame::{ErrorCode, FrameView};
use crate::h2::hpack::encoder;
use crate::h2::hpack::FieldView;
use crate::h2::server::config::Limits;
use crate::h2::server::model;
use crate::h2::server::model::{
    DispatchView,
    PendingView,
    RequestView,
    ResponseView,
    ServerView,
};
use crate::h2::server::progress;
use vstd::prelude::*;

verus! {

/// A request whose fields are all there is is complete with them. One that goes on is kept, while
/// there is room, until its end comes. Where there is none, RST_STREAM asks the peer for calm, and
/// nothing is kept.
#[verifier::rlimit(60)]
pub proof fn law_requests_begin(
    v: ServerView,
    id: u32,
    fields: Seq<FieldView>,
    limits: Limits,
)
    requires
        conn::model::conn_inv(v.conn),
        v.conn.has_stream(id),
        v.conn.egress.has_room(13),
        !v.incoming.contains_key(id),
    ensures
        ({
            let alone = EventView::Headers { stream: id, fields, end_stream: true, trailing: false };
            let (w, done) = model::event_taken(v, alone, limits);
            &&& w == v
            &&& done == Some((id, RequestView { fields, body: Seq::empty() }))
        }),
        ({
            let first = EventView::Headers { stream: id, fields, end_stream: false, trailing: false };
            let (w, done) = model::event_taken(v, first, limits);
            &&& done is None
            &&& v.incoming.len() < v.capacity ==> w.conn == v.conn && w.incoming.contains_key(id)
                && w.incoming[id].fields == fields && w.incoming[id].body.len() == 0
                && w.incoming.remove(id) == v.incoming && w.buffered == v.buffered
            &&& v.incoming.len() >= v.capacity ==> w.incoming == v.incoming
                && !w.conn.has_stream(id) && sent::put(
                v.conn,
                w.conn,
                answers::framed(3, 0, id as int, seq![0u8, 0, 0, 11]),
            )
        }),
{
    reveal(model::event_taken);
    assert(answers::word(11) =~= seq![0u8, 0, 0, 11]);
    sent::law_resets_go_out(v.conn, id, ErrorCode::EnhanceYourCalm);
    let first = EventView::Headers { stream: id, fields, end_stream: false, trailing: false };
    let (w, done) = model::event_taken(v, first, limits);
    if v.incoming.len() < v.capacity {
        assert(w.incoming.remove(id) =~= v.incoming);
    }
}

proof fn lemma_dropped(pending: Seq<PendingView>, id: u32)
    ensures
        ({
            let left = model::dropped(pending, id);
            &&& forall|i: int| 0 <= i < left.len() ==> (#[trigger] left[i]).stream != id
            &&& forall|i: int|
                0 <= i < pending.len() && (#[trigger] pending[i]).stream != id ==> left.contains(
                    pending[i],
                )
            &&& left.len() <= pending.len()
            &&& (forall|i: int| 0 <= i < pending.len() ==> (#[trigger] pending[i]).stream != id)
                ==> left == pending
        }),
    decreases pending.len(),
{
    reveal(Seq::filter);
    let left = model::dropped(pending, id);
    if pending.len() > 0 {
        let part = pending.drop_last();
        lemma_dropped(part, id);
        let most = model::dropped(part, id);
        assert(pending.last() == pending[pending.len() - 1]);
        assert forall|i: int| 0 <= i < pending.len() && (#[trigger] pending[i]).stream
            != id implies left.contains(pending[i]) by {
            if i < pending.len() - 1 {
                assert(part[i] == pending[i]);
                assert(most.contains(part[i]));
                let k = choose|k: int| 0 <= k < most.len() && most[k] == part[i];
                assert(left[k] == most[k]);
            } else {
                assert(left == most.push(pending.last()));
                assert(left[most.len() as int] == pending.last());
            }
        }
        if forall|i: int| 0 <= i < pending.len() ==> (#[trigger] pending[i]).stream != id {
            assert forall|i: int| 0 <= i < part.len() implies (#[trigger] part[i]).stream
                != id by {
                assert(part[i] == pending[i]);
            }
            assert(pending[pending.len() - 1].stream != id);
            assert(left =~= pending);
        }
    } else {
        assert(left =~= pending);
    }
}

/// What a peer resets is forgotten: the request, if it is not complete, and the response, if it is
/// not sent. Every other response stays, and the bytes that the request took up are free again.
#[verifier::rlimit(60)]
pub proof fn law_resets_clear_the_stream(
    v: ServerView,
    id: u32,
    error: ErrorCode,
    limits: Limits,
)
    ensures
        ({
            let (w, done) = model::event_taken(
                v,
                EventView::StreamReset { stream: id, error },
                limits,
            );
            &&& done is None
            &&& w.conn == v.conn
            &&& !w.incoming.contains_key(id)
            &&& w.incoming == v.incoming.remove(id)
            &&& v.incoming.contains_key(id) && v.incoming[id].body.len() <= v.buffered
                ==> w.buffered + v.incoming[id].body.len() == v.buffered
            &&& !v.incoming.contains_key(id) ==> w.buffered == v.buffered
            &&& forall|i: int| 0 <= i < w.pending.len() ==> (#[trigger] w.pending[i]).stream != id
            &&& forall|i: int|
                0 <= i < v.pending.len() && (#[trigger] v.pending[i]).stream != id
                    ==> w.pending.contains(v.pending[i])
        }),
{
    reveal(model::event_taken);
    lemma_dropped(v.pending, id);
    let (w, done) = model::event_taken(v, EventView::StreamReset { stream: id, error }, limits);
    assert(w.incoming =~= v.incoming.remove(id));
}

/// A request that is refused is answered with RST_STREAM that says why, and its stream is gone.
#[verifier::rlimit(60)]
pub proof fn law_refusals_go_out(v: ServerView, id: u32, error: ErrorCode, limits: Limits)
    requires
        conn::model::conn_inv(v.conn),
        v.conn.has_stream(id),
        v.conn.egress.has_room(13),
    ensures
        ({
            let w = model::delivered(v, id, DispatchView::Reset(error), limits);
            &&& !w.conn.has_stream(id)
            &&& w.pending == v.pending
            &&& w.incoming == v.incoming
            &&& sent::put(
                v.conn,
                w.conn,
                answers::framed(
                    3,
                    0,
                    id as int,
                    answers::word(frame::error_number(error) as int),
                ),
            )
        }),
{
    reveal(model::delivered);
    sent::law_resets_go_out(v.conn, id, error);
}

/// A request of which nothing was decided yet is left alone: nothing is sent.
#[verifier::rlimit(60)]
pub proof fn law_undecided_requests_wait(v: ServerView, id: u32, limits: Limits)
    ensures
        model::delivered(v, id, DispatchView::Pending, limits) == v,
{
    reveal(model::delivered);
}

/// What the DATA frames of a stream carry, none of which ends it.
pub open spec fn unended(s: Seq<u8>, id: u32) -> Option<Seq<u8>>
    decreases s.len(),
{
    if s.len() == 0 {
        Some(Seq::empty())
    } else {
        match laws::first_frame(s) {
            Ok((FrameView::Data { stream, end_stream, payload }, n)) => {
                if stream != id || end_stream || !(1 <= n <= s.len()) {
                    None
                } else {
                    match unended(s.skip(n as int), id) {
                        Some(rest) => Some(payload + rest),
                        None => None,
                    }
                }
            },
            _ => None,
        }
    }
}

#[verifier::rlimit(60)]
pub proof fn lemma_unended(id: u32, payload: Seq<u8>, more: Seq<u8>)
    requires
        1 <= id <= 0x7fff_ffff,
        payload.len() <= 0xff_ffff,
        unended(more, id) is Some,
    ensures
        unended(answers::framed(0, 0, id as int, payload) + more, id) == Some(
            payload + unended(more, id).unwrap(),
        ),
{
    let f = FrameView::Data { stream: id, end_stream: false, payload };
    answers::lemma_octets(frame::frame_head(f));
    let wire = answers::framed(0, 0, id as int, payload);
    assert(frame::frame_wire(f) =~= wire);
    frame::law_frames_round_trip(f, more);
    reveal(laws::first_frame);
    assert((wire + more).skip(wire.len() as int) =~= more);
    assert(laws::first_frame(wire + more) == Ok::<(FrameView, nat), frame::ParseError>(
        (f, wire.len()),
    ));
}

/// How many bytes a block of fields that ends a stream takes up.
pub open spec fn ending_len(c: ConnView, id: u32, list: Seq<FieldView>) -> int {
    egress::header_frames(
        id,
        encoder::block_wire(c.egress.encoder, list),
        true,
        c.peer.max_frame_size as int,
    ).len() as int
}

/// A response with trailers whose windows are wide enough, with room for what it sends, is sent to
/// its end: DATA frames carry all that was left of the body, none of them ends the stream, and then
/// a block with the trailers does.
#[verifier::rlimit(60)]
pub proof fn law_trailers_come_last(c: ConnView, p: PendingView, limit: int) -> (r: (Seq<u8>, Seq<u8>))
    requires
        conn::model::conn_inv(c),
        sent::may_send(c, p.stream),
        1 <= p.stream <= 0x7fff_ffff,
        p.offset <= p.body.len() <= usize::MAX,
        p.trailers.len() > 0,
        !p.trailers_sent,
        p.body.len() - p.offset <= sent::open_for(c, p.stream),
        c.egress.has_room(
            10 * (p.body.len() - p.offset) + ending_len(c, p.stream, p.trailers),
        ),
        c.egress.bytes.len() + 10 * (p.body.len() - p.offset) <= limit,
    ensures
        ({
            let (d, left, done) = model::pumped(c, p, limit);
            &&& done == Ok::<bool, ConnError>(true)
            &&& sent::put(c, d, r.0 + r.1)
            &&& unended(r.0, p.stream) == Some(p.body.skip(p.offset as int))
            &&& laws::gathered(r.1, p.stream, true) == Some(
                encoder::block_wire(c.egress.encoder, p.trailers),
            )
            &&& r.1[3] == 1
            &&& r.1[4] % 2 == 1
            &&& sent::has_ended(d, p.stream)
        }),
    decreases p.body.len() - p.offset,
{
    let id = p.stream;
    let (d, left, done) = model::pumped(c, p, limit);
    if p.offset >= p.body.len() {
        sent::law_fields_go_out(c, id, p.trailers, true);
        let end = d.egress.bytes.skip(c.egress.bytes.len() as int);
        let none = Seq::<u8>::empty();
        assert(none + end =~= end);
        assert(p.body.skip(p.offset as int) =~= none);
        (none, end)
    } else {
        let rest = p.body.subrange(p.offset as int, p.body.len() as int);
        assert(rest =~= p.body.skip(p.offset as int));
        sent::law_bodies_go_out(c, id, rest, false);
        let n = sent::least(
            sent::least(rest.len() as int, sent::open_for(c, id)),
            c.peer.max_frame_size as int,
        );
        let (next, r) = conn::model::data_sent(c, id, rest, false);
        let f = answers::framed(0, 0, id as int, rest.take(n));
        let q = PendingView { offset: p.offset + n as nat, ..p };
        assert(model::pumped(c, p, limit) == model::pumped(next, q, limit));
        let (body, end) = law_trailers_come_last(next, q, limit);
        lemma_unended(id, rest.take(n), body);
        let all = f + body;
        assert(q.body.skip(q.offset as int) =~= rest.skip(n));
        assert(rest.take(n) + rest.skip(n) =~= rest);
        assert(all + end =~= f + (body + end));
        assert(d.egress.bytes =~= c.egress.bytes + (all + end));
        assert(d.egress.outgoing() =~= c.egress.outgoing() + (all + end));
        (all, end)
    }
}

/// Whether there is room for a response: its windows, and the bytes that go out.
pub open spec fn finds_room(v: ServerView, id: u32, r: ResponseView, limits: Limits) -> bool {
    let (mid, begun) = conn::model::response_sent(v.conn, id, r.fields, false);
    let n = 10 * r.body.len();
    &&& begun is Ok
    &&& r.body.len() <= usize::MAX
    &&& r.body.len() <= sent::open_for(v.conn, id)
    &&& mid.egress.has_room(n + ending_len(mid, id, r.trailers))
    &&& mid.egress.bytes.len() + n <= limits.max_outbound_bytes
}

/// A response goes out whole: a block with its fields, DATA frames that carry its body, and what
/// ends the stream, which is a block with its trailers or, where there are none, the last DATA
/// frame. Nothing is left to send.
#[verifier::spinoff_prover]
#[verifier::rlimit(60)]
pub proof fn law_responses_go_out(v: ServerView, id: u32, r: ResponseView, limits: Limits) -> (parts: (
    Seq<u8>,
    Seq<u8>,
    Seq<u8>,
))
    requires
        conn::model::conn_inv(v.conn),
        sent::may_send(v.conn, id),
        1 <= id <= 0x7fff_ffff,
        r.body.len() > 0 || r.trailers.len() > 0,
        finds_room(v, id, r, limits),
    ensures
        ({
            let w = model::delivered(v, id, DispatchView::Response(r), limits);
            let e = v.conn.egress.encoder;
            &&& sent::put(v.conn, w.conn, parts.0 + parts.1 + parts.2)
            &&& laws::gathered(parts.0, id, true) == Some(encoder::block_wire(e, r.fields))
            &&& parts.0[4] % 2 == 0
            &&& r.trailers.len() == 0 ==> parts.2.len() == 0 && progress::carried(parts.1, id)
                == Some(r.body)
            &&& r.trailers.len() > 0 ==> unended(parts.1, id) == Some(r.body) && laws::gathered(
                parts.2,
                id,
                true,
            ) == Some(encoder::block_wire(encoder::after_block(e, r.fields), r.trailers))
                && parts.2[4] % 2 == 1
            &&& sent::has_ended(w.conn, id)
            &&& w.pending == v.pending
            &&& w.incoming == v.incoming
        }),
{
    reveal(model::delivered);
    sent::law_fields_go_out(v.conn, id, r.fields, false);
    let mid = conn::model::response_sent(v.conn, id, r.fields, false).0;
    let head = mid.egress.bytes.skip(v.conn.egress.bytes.len() as int);
    let p = PendingView {
        stream: id,
        body: r.body,
        offset: 0,
        stalled: false,
        trailers: r.trailers,
        trailers_sent: false,
    };
    let limit = limits.max_outbound_bytes as int;
    let (d, left, done) = model::pumped(mid, p, limit);
    assert(p.body.skip(0) =~= r.body);
    assert(sent::open_for(mid, id) == sent::open_for(v.conn, id));
    let (body, end) = if r.trailers.len() > 0 {
        law_trailers_come_last(mid, p, limit)
    } else {
        progress::law_open_windows_let_the_rest_through(mid, p, limit);
        let out = d.egress.bytes.skip(mid.egress.bytes.len() as int);
        assert(out + Seq::<u8>::empty() =~= out);
        (out, Seq::<u8>::empty())
    };
    assert(head + body + end =~= head + (body + end));
    assert(d.egress.bytes =~= v.conn.egress.bytes + (head + body + end));
    assert(d.egress.outgoing() =~= v.conn.egress.outgoing() + (head + body + end));
    (head, body, end)
}

#[verifier::rlimit(60)]
proof fn lemma_keeps_ingress(v: ServerView, event: EventView, limits: Limits)
    ensures
        model::event_taken(v, event, limits).0.conn.ingress == v.conn.ingress,
{
    reveal(model::event_taken);
    match event {
        EventView::Headers { stream, .. } => {
            conn::model::lemma_sending_keeps_ingress(v.conn, stream);
        },
        EventView::Data { stream, .. } => {
            conn::model::lemma_sending_keeps_ingress(v.conn, stream);
        },
        _ => {},
    }
}

proof fn lemma_pumping_keeps_ingress(c: ConnView, p: PendingView, limit: int)
    ensures
        model::pumped(c, p, limit).0.ingress == c.ingress,
    decreases p.body.len() - p.offset,
{
    conn::model::lemma_sending_keeps_ingress(c, p.stream);
    if p.offset < p.body.len() && c.egress.first_len() < limit {
        let rest = p.body.subrange(p.offset as int, p.body.len() as int);
        let (next, r) = conn::model::data_sent(c, p.stream, rest, p.trailers.len() == 0);
        if let Ok(n) = r {
            if n > 0 && n <= rest.len() {
                lemma_pumping_keeps_ingress(
                    next,
                    PendingView { offset: p.offset + n as nat, ..p },
                    limit,
                );
            }
        }
    }
}

#[verifier::rlimit(60)]
proof fn lemma_answering_keeps_ingress(v: ServerView, id: u32, d: DispatchView, limits: Limits)
    ensures
        model::delivered(v, id, d, limits).conn.ingress == v.conn.ingress,
{
    reveal(model::delivered);
    conn::model::lemma_sending_keeps_ingress(v.conn, id);
    if let DispatchView::Response(r) = d {
        let ends = r.body.len() == 0 && r.trailers.len() == 0;
        let next = conn::model::response_sent(v.conn, id, r.fields, ends).0;
        let p = PendingView {
            stream: id,
            body: r.body,
            offset: 0,
            stalled: false,
            trailers: r.trailers,
            trailers_sent: false,
        };
        lemma_pumping_keeps_ingress(next, p, limits.max_outbound_bytes as int);
        let c = model::pumped(next, p, limits.max_outbound_bytes as int).0;
        conn::model::lemma_sending_keeps_ingress(c, id);
    }
}

/// Dealing with some events takes them from the front of those that there are, and leaves the rest
/// in order.
pub proof fn law_events_are_dealt_with_in_order(
    v: ServerView,
    n: nat,
    limits: Limits,
    replies: Seq<DispatchView>,
)
    requires
        n <= v.conn.ingress.events.len(),
    ensures
        model::handled(v, n, limits, replies).conn.ingress.events == v.conn.ingress.events.skip(
            n as int,
        ),
    decreases n,
{
    let events = v.conn.ingress.events;
    if n == 0 {
        assert(events.skip(0) =~= events);
    } else {
        let w = model::polled(v);
        assert(w.conn.ingress.events == events.drop_first());
        lemma_keeps_ingress(w, events[0], limits);
        let (next, done) = model::event_taken(w, events[0], limits);
        let after = match done {
            Some((id, request)) => model::delivered(next, id, replies[0], limits),
            None => next,
        };
        if let Some((id, _)) = done {
            lemma_answering_keeps_ingress(next, id, replies[0], limits);
        }
        law_events_are_dealt_with_in_order(after, (n - 1) as nat, limits, replies.drop_first());
        assert(events.drop_first().skip(n - 1) =~= events.skip(n as int));
    }
}

proof fn lemma_round_keeps_ingress(v: ServerView, n: nat, limits: Limits, resume: bool)
    ensures
        model::round(v, n, limits, resume).conn.ingress == v.conn.ingress,
    decreases n,
{
    if n > 0 && v.pending.len() > 0 {
        let first = v.pending[0];
        let p = PendingView { stalled: first.stalled && !resume, ..first };
        let rest = v.pending.drop_first();
        let limit = limits.max_outbound_bytes as int;
        lemma_pumping_keeps_ingress(v.conn, p, limit);
        let next = if p.stalled || v.conn.egress.first_len() >= limit {
            ServerView { pending: rest.push(p), ..v }
        } else {
            let (c, left, done) = model::pumped(v.conn, p, limit);
            ServerView {
                conn: c,
                pending: if done == Ok::<bool, ConnError>(false) {
                    rest.push(left)
                } else {
                    rest
                },
                ..v
            }
        };
        lemma_round_keeps_ingress(next, (n - 1) as nat, limits, resume);
    }
}

/// No event is left once the events were dealt with.
#[verifier::rlimit(60)]
pub proof fn law_no_event_is_left(v: ServerView, limits: Limits, replies: Seq<DispatchView>)
    ensures
        model::drained(v, limits, replies).conn.ingress.events.len() == 0,
{
    reveal(model::woken);
    let n = v.conn.ingress.events.len();
    law_events_are_dealt_with_in_order(v, n, limits, replies);
    let mid = model::handled(v, n, limits, replies);
    let next = mid.with_conn(ConnView { opened: false, ..mid.conn });
    lemma_round_keeps_ingress(next, next.pending.len(), limits, true);
}

/// A request of fields alone that is the only event is answered with what its owner decides; one
/// whose body is still to come is not answered.
#[verifier::rlimit(60)]
pub proof fn law_complete_requests_are_answered(
    v: ServerView,
    id: u32,
    fields: Seq<FieldView>,
    limits: Limits,
    d: DispatchView,
)
    requires
        !v.incoming.contains_key(id),
        v.incoming.len() < v.capacity,
    ensures
        ({
            let event = EventView::Headers { stream: id, fields, end_stream: true, trailing: false };
            v.conn.ingress.events == seq![event] ==> model::handled(v, 1, limits, seq![d])
                == model::delivered(model::polled(v), id, d, limits)
        }),
        ({
            let event = EventView::Headers { stream: id, fields, end_stream: false, trailing: false };
            v.conn.ingress.events == seq![event] ==> model::handled(v, 1, limits, seq![d]).conn
                == model::polled(v).conn && model::handled(
                v,
                1,
                limits,
                seq![d],
            ).incoming.contains_key(id)
        }),
{
    reveal(model::event_taken);
    let w = model::polled(v);
    let one = EventView::Headers { stream: id, fields, end_stream: true, trailing: false };
    let two = EventView::Headers { stream: id, fields, end_stream: false, trailing: false };
    let a = model::delivered(w, id, d, limits);
    assert(model::handled(a, 0, limits, seq![d].drop_first()) == a);
    let b = model::event_taken(w, two, limits).0;
    assert(model::handled(b, 0, limits, seq![d].drop_first()) == b);
    assert(model::event_taken(w, one, limits).0 == w);
}

} // verus!
