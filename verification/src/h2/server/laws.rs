//! What holds of a served connection as a whole.

use crate::h2::conn;
use crate::h2::conn::model::ConnView;
use crate::h2::conn::sending;
use crate::h2::conn::sending::Act;
use crate::h2::error::ConnError;
use crate::h2::event::EventView;
use crate::h2::frame::ErrorCode;
use crate::h2::hpack::FieldView;
use crate::h2::server::config::Limits;
use crate::h2::server::model;
use crate::h2::server::model::{DispatchView, PendingView, RequestView, ResponseView, ServerView};
use vstd::prelude::*;

verus! {

/// The bytes of a response that are still to be sent.
pub open spec fn waiting(p: PendingView) -> Seq<u8> {
    p.body.skip(p.offset as int)
}

/// A response is sent in order: what was sent of its body and what is left make up the whole,
/// and one that is complete was sent whole, its trailers last.
pub proof fn law_responses_are_sent_in_order(c: ConnView, p: PendingView, limit: int) -> (acts: Seq<
    Act,
>)
    requires
        p.offset <= p.body.len(),
    ensures
        sending::performed(c, acts) == model::pumped(c, p, limit).0,
        forall|other: u32|
            other != p.stream ==> #[trigger] sending::body_sent(c, acts, other) == Seq::<
                u8,
            >::empty(),
        ({
            let (_, left, done) = model::pumped(c, p, limit);
            &&& left.stream == p.stream
            &&& left.body == p.body
            &&& left.trailers == p.trailers
            &&& left.offset <= left.body.len()
            &&& sending::body_sent(c, acts, p.stream) + waiting(left) == waiting(p)
            &&& done == Ok::<bool, ConnError>(true) ==> waiting(left).len() == 0 && (
            p.trailers.len() > 0 && !p.trailers_sent ==> acts.len() > 0 && acts.last() == (
            Act::Fields { stream: p.stream, list: p.trailers, end_stream: true }))
        }),
    decreases p.body.len() - p.offset,
{
    let e = Seq::<u8>::empty();
    assert(e + waiting(p) =~= waiting(p));
    if p.offset >= p.body.len() {
        if p.trailers.len() == 0 || p.trailers_sent {
            Seq::empty()
        } else {
            let a = Act::Fields { stream: p.stream, list: p.trailers, end_stream: true };
            sending::lemma_first(c, a, Seq::empty());
            assert(e + e =~= e);
            let acts = seq![a] + Seq::empty();
            assert(acts =~= seq![a]);
            acts
        }
    } else if c.egress.first_len() >= limit {
        Seq::empty()
    } else {
        let id = p.stream;
        conn::model::lemma_sending_keeps_ingress(c, id);
        let rest = p.body.subrange(p.offset as int, p.body.len() as int);
        assert(rest =~= waiting(p));
        let ends = p.trailers.len() == 0;
        let a = Act::Data { stream: id, bytes: rest, end_stream: ends };
        let (next, out) = conn::model::data_sent(c, id, rest, ends);
        sending::lemma_first(c, a, Seq::empty());
        assert forall|other: u32|
            sending::carried(c, a, other) + e == sending::carried(c, a, other) by {
            assert(sending::carried(c, a, other) + e =~= sending::carried(c, a, other));
        }
        match out {
            Err(_) => seq![a] + Seq::empty(),
            Ok(n) => {
                if n == 0 {
                    assert(rest.take(0) =~= e);
                    seq![a] + Seq::empty()
                } else {
                    let moved = PendingView { offset: p.offset + n as nat, ..p };
                    assert(rest.take(n as int) + waiting(moved) =~= waiting(p));
                    let more = law_responses_are_sent_in_order(next, moved, limit);
                    sending::lemma_first(c, a, more);
                    let left = model::pumped(c, p, limit).1;
                    let x = rest.take(n as int);
                    let y = sending::body_sent(next, more, id);
                    assert((x + y) + waiting(left) =~= x + (y + waiting(left)));
                    assert forall|other: u32| other != id implies #[trigger] sending::body_sent(
                        c,
                        seq![a] + more,
                        other,
                    ) == e by {
                        assert(sending::body_sent(next, more, other) == e);
                        assert(e + e =~= e);
                    }
                    let acts = seq![a] + more;
                    if more.len() > 0 {
                        assert(acts.last() == more.last());
                    }
                    acts
                }
            },
        }
    }
}

/// All pieces in one.
pub open spec fn joined(pieces: Seq<Seq<u8>>) -> Seq<u8>
    decreases pieces.len(),
{
    if pieces.len() == 0 {
        Seq::empty()
    } else {
        pieces[0] + joined(pieces.drop_first())
    }
}

/// The body of a request, in pieces, the last of which ends it.
pub open spec fn fed(v: ServerView, id: u32, pieces: Seq<Seq<u8>>, limits: Limits) -> (
    ServerView,
    Option<(u32, RequestView)>,
)
    decreases pieces.len(),
{
    let first = model::event_taken(
        v,
        EventView::Data { stream: id, data: pieces[0], end_stream: pieces.len() <= 1 },
        limits,
    );
    if pieces.len() <= 1 {
        first
    } else {
        fed(first.0, id, pieces.drop_first(), limits)
    }
}

/// A request that comes in pieces is handed on whole: its fields, and its body in order, and
/// what it took up is free again.
pub proof fn law_requests_are_put_together(
    v: ServerView,
    id: u32,
    pieces: Seq<Seq<u8>>,
    limits: Limits,
)
    requires
        v.incoming.contains_key(id),
        pieces.len() > 0,
        v.incoming[id].body.len() <= v.buffered,
        v.incoming[id].body.len() + joined(pieces).len() <= limits.max_request_body_bytes,
        v.buffered + joined(pieces).len() <= limits.max_connection_body_bytes,
    ensures
        fed(v, id, pieces, limits) == (
            ServerView {
                incoming: v.incoming.remove(id),
                buffered: (v.buffered - v.incoming[id].body.len()) as nat,
                ..v
            },
            Some(
                (
                    id,
                    RequestView {
                        fields: v.incoming[id].fields,
                        body: v.incoming[id].body + joined(pieces),
                    },
                ),
            ),
        ),
    decreases pieces.len(),
{
    reveal(model::event_taken);
    let request = v.incoming[id];
    let data = pieces[0];
    let rest = pieces.drop_first();
    let grown = RequestView { body: request.body + data, ..request };
    let next = ServerView {
        incoming: v.incoming.insert(id, grown),
        buffered: v.buffered + data.len(),
        ..v
    };
    assert(next.incoming.remove(id) =~= v.incoming.remove(id));
    assert((request.body + data) + joined(rest) =~= request.body + (data + joined(rest)));
    if pieces.len() == 1 {
        assert(joined(rest) =~= Seq::<u8>::empty());
        assert(data + joined(rest) =~= data);
    } else {
        let first = model::event_taken(
            v,
            EventView::Data { stream: id, data, end_stream: false },
            limits,
        );
        assert(first.0 == next);
        law_requests_are_put_together(next, id, rest, limits);
    }
}

/// A request that grows too long is reset and forgotten.
pub proof fn law_long_requests_are_refused(
    v: ServerView,
    id: u32,
    data: Seq<u8>,
    end_stream: bool,
    limits: Limits,
)
    requires
        v.incoming.contains_key(id),
        v.incoming[id].body.len() + data.len() > limits.max_request_body_bytes || v.buffered
            + data.len() > limits.max_connection_body_bytes,
        v.incoming[id].body.len() + data.len() <= usize::MAX,
        v.buffered + data.len() <= usize::MAX,
    ensures
        model::event_taken(v, EventView::Data { stream: id, data, end_stream }, limits) == (
            model::reset(model::taken(v, id), id, ErrorCode::EnhanceYourCalm),
            None::<(u32, RequestView)>,
        ),
        !model::taken(v, id).incoming.contains_key(id),
{
    reveal(model::event_taken);
}

/// Fields at the end of a request complete it: they follow those at its start. Where all of them
/// together are over the limit for fields, the request is reset and forgotten.
pub proof fn law_trailers_follow_the_fields(
    v: ServerView,
    id: u32,
    fields: Seq<FieldView>,
    end_stream: bool,
    limits: Limits,
)
    requires
        v.incoming.contains_key(id),
    ensures
        ({
            let all = v.incoming[id].fields + fields;
            let event = EventView::Headers { stream: id, fields, end_stream, trailing: true };
            model::event_taken(v, event, limits) == (if crate::h2::event::block_fits(
                all,
                v.conn.local.max_header_list_size,
            ) {
                (
                    model::taken(v, id),
                    Some((id, RequestView { fields: all, body: v.incoming[id].body })),
                )
            } else {
                (
                    model::reset(model::taken(v, id), id, ErrorCode::EnhanceYourCalm),
                    None::<(u32, RequestView)>,
                )
            })
        }),
{
    reveal(model::event_taken);
}

/// What comes for one request leaves every other as it was.
pub proof fn law_requests_do_not_meddle(v: ServerView, event: EventView, limits: Limits, other: u32)
    requires
        crate::h2::event::stream_of(event) != Some(other),
    ensures
        ({
            let w = model::event_taken(v, event, limits).0;
            &&& w.incoming.contains_key(other) == v.incoming.contains_key(other)
            &&& w.incoming[other] == v.incoming[other]
        }),
{
    reveal(model::event_taken);
}

/// The bytes of all bodies.
pub open spec fn total(incoming: Map<u32, RequestView>) -> nat
    decreases incoming.dom().len(),
    when incoming.dom().finite()
{
    if incoming.dom().len() == 0 {
        0
    } else {
        let id = incoming.dom().choose();
        incoming[id].body.len() + total(incoming.remove(id))
    }
}

proof fn lemma_total_without(incoming: Map<u32, RequestView>, id: u32)
    requires
        incoming.dom().finite(),
        incoming.contains_key(id),
    ensures
        total(incoming) == incoming[id].body.len() + total(incoming.remove(id)),
    decreases incoming.dom().len(),
{
    let first = incoming.dom().choose();
    assert(incoming.dom().contains(first));
    if first != id {
        lemma_total_without(incoming.remove(first), id);
        lemma_total_without(incoming.remove(id), first);
        assert(incoming.remove(first).remove(id) =~= incoming.remove(id).remove(first));
    }
}

proof fn lemma_total_with(incoming: Map<u32, RequestView>, id: u32, request: RequestView)
    requires
        incoming.dom().finite(),
    ensures
        incoming.contains_key(id) ==> total(incoming.insert(id, request))
            + incoming[id].body.len() == total(incoming) + request.body.len(),
        !incoming.contains_key(id) ==> total(incoming.insert(id, request)) == total(incoming)
            + request.body.len(),
{
    lemma_total_without(incoming.insert(id, request), id);
    if incoming.contains_key(id) {
        lemma_total_without(incoming, id);
        assert(incoming.insert(id, request).remove(id) =~= incoming.remove(id));
    } else {
        assert(incoming.insert(id, request).remove(id) =~= incoming);
    }
}

/// Whether a server keeps to its limits, and counts the bytes that it keeps. The limits are
/// such that the machine can count past them.
pub open spec fn accounts(v: ServerView, limits: Limits) -> bool {
    &&& limits.max_request_body_bytes < usize::MAX
    &&& limits.max_connection_body_bytes < usize::MAX
    &&& v.incoming.dom().finite()
    &&& v.incoming.len() <= v.capacity
    &&& v.pending.len() <= v.pending_capacity
    &&& v.buffered == total(v.incoming)
    &&& v.buffered <= limits.max_connection_body_bytes
    &&& forall|id: u32| #[trigger]
        v.incoming.contains_key(id) ==> v.incoming[id].body.len() <= limits.max_request_body_bytes
}

proof fn lemma_taken(v: ServerView, id: u32, limits: Limits)
    requires
        accounts(v, limits),
    ensures
        accounts(model::taken(v, id), limits),
        !model::taken(v, id).incoming.contains_key(id),
{
    if v.incoming.contains_key(id) {
        lemma_total_without(v.incoming, id);
        assert(v.incoming.remove(id).dom() =~= v.incoming.dom().remove(id));
    }
}

proof fn lemma_dropped(pending: Seq<PendingView>, id: u32)
    ensures
        model::dropped(pending, id).len() <= pending.len(),
{
    pending.lemma_filter_len(|p: PendingView| p.stream != id);
}

proof fn lemma_round(v: ServerView, n: nat, limits: Limits, resume: bool)
    requires
        accounts(v, limits),
    ensures
        accounts(model::round(v, n, limits, resume), limits),
    decreases n,
{
    if n > 0 && v.pending.len() > 0 {
        let first = v.pending[0];
        let p = PendingView { stalled: first.stalled && !resume, ..first };
        let rest = v.pending.drop_first();
        let limit = limits.max_outbound_bytes as int;
        let next = if p.stalled || v.conn.egress.first_len() >= limit {
            ServerView { pending: rest.push(p), ..v }
        } else {
            let (c, left, done) = model::pumped(v.conn, p, limit);
            ServerView {
                conn: c,
                pending: if done == Ok::<bool, ConnError>(false) {
                    rest.push(left)
                } else {
                    rest
                },
                ..v
            }
        };
        lemma_round(next, (n - 1) as nat, limits, resume);
    }
}

/// Whatever comes and whatever is answered, a server keeps to its limits: as many requests and
/// responses as there is room for, no request too long, and no more bytes than are counted.
pub proof fn law_limits_are_kept(
    v: ServerView,
    event: EventView,
    id: u32,
    d: DispatchView,
    limits: Limits,
)
    requires
        accounts(v, limits),
    ensures
        accounts(model::event_taken(v, event, limits).0, limits),
        accounts(model::delivered(v, id, d, limits), limits),
        accounts(model::woken(v, limits), limits),
{
    reveal(model::event_taken);
    reveal(model::delivered);
    reveal(model::woken);
    let next = v.with_conn(ConnView { opened: false, ..v.conn });
    lemma_round(next, next.pending.len(), limits, true);
    match event {
        EventView::Headers { stream, fields, end_stream, trailing } => {
            lemma_taken(v, stream, limits);
            let request = RequestView { fields, body: Seq::empty() };
            lemma_total_with(v.incoming, stream, request);
            assert(v.incoming.insert(stream, request).dom() =~= v.incoming.dom().insert(stream));
        },
        EventView::Data { stream, data, end_stream } => {
            lemma_taken(v, stream, limits);
            if v.incoming.contains_key(stream) {
                let request = v.incoming[stream];
                let grown = RequestView { body: request.body + data, ..request };
                lemma_total_with(v.incoming, stream, grown);
                assert(v.incoming.insert(stream, grown).dom() =~= v.incoming.dom());
                let kept = ServerView {
                    incoming: v.incoming.insert(stream, grown),
                    buffered: model::capped(v.buffered, data.len()),
                    ..v
                };
                if request.body.len() + data.len() <= limits.max_request_body_bytes && v.buffered
                    + data.len() <= limits.max_connection_body_bytes {
                    lemma_taken(kept, stream, limits);
                }
            }
        },
        EventView::StreamReset { stream, error } => {
            lemma_taken(v, stream, limits);
            lemma_dropped(v.pending, stream);
        },
        _ => {},
    }
}

/// A response with neither a body nor trailers is sent at once and leaves nothing behind.
pub proof fn law_bare_responses_are_sent_at_once(
    v: ServerView,
    id: u32,
    fields: Seq<FieldView>,
    limits: Limits,
)
    requires
        v.conn.has_stream(id),
    ensures
        model::responded(
            v,
            id,
            ResponseView { fields, body: Seq::empty(), trailers: Seq::empty() },
            limits,
        ) == v.with_conn(conn::model::response_sent(v.conn, id, fields, true).0),
{
}

} // verus!
