//! How responses get on: what was held up goes on as soon as it can, and comes to its end.

use crate::h2::conn;
use crate::h2::conn::answers;
use crate::h2::conn::laws;
use crate::h2::conn::model::ConnView;
use crate::h2::conn::sent;
use crate::h2::error::ConnError;
use crate::h2::event::EventView;
use crate::h2::frame;
use crate::h2::frame::{ErrorCode, FrameView};
use crate::h2::hpack::FieldView;
use crate::h2::server::config::Limits;
use crate::h2::server::model;
use crate::h2::server::model::{DispatchView, PendingView, ServerView};
use vstd::prelude::*;

verus! {

/// Each stream stands under its own number, and the peer takes frames that are not empty.
pub open spec fn sound(c: ConnView) -> bool {
    &&& c.peer.max_frame_size > 0
    &&& forall|id: u32| #[trigger]
        c.streams.records.contains_key(id) ==> c.streams.records[id].stream.id.value() == id
}

/// Whether nothing can be sent on a stream for want of a window, or the stream is gone.
pub open spec fn shut(c: ConnView, id: u32) -> bool {
    c.has_stream(id) ==> sent::open_for(c, id) == 0
}

/// Whether sending has led from one connection to the other: no window is wider and no stream is
/// new, no fewer bytes wait to go out, and whether a window has opened is not forgotten.
pub open spec fn narrower(c: ConnView, d: ConnView) -> bool {
    &&& sound(d)
    &&& d.peer == c.peer
    &&& d.opened == c.opened
    &&& d.send_window.value <= c.send_window.value
    &&& d.egress.first_len() >= c.egress.first_len()
    &&& forall|id: u32| #[trigger]
        d.streams.records.contains_key(id) ==> c.streams.records.contains_key(id)
            && d.streams.records[id].send_window.value <= c.streams.records[id].send_window.value
}

#[verifier::rlimit(60)]
pub proof fn lemma_sending_narrows(c: ConnView, id: u32, body: Seq<u8>, end: bool)
    requires
        sound(c),
    ensures
        narrower(c, conn::model::data_sent(c, id, body, end).0),
        conn::model::data_sent(c, id, body, end).1 == Ok::<usize, ConnError>(0) && body.len() > 0
            && body.len() <= usize::MAX ==> shut(conn::model::data_sent(c, id, body, end).0, id),
{
    reveal(conn::model::data_sent);
}

#[verifier::rlimit(60)]
pub proof fn lemma_fields_narrow(c: ConnView, id: u32, list: Seq<FieldView>, end: bool)
    requires
        sound(c),
    ensures
        narrower(c, conn::model::response_sent(c, id, list, end).0),
{
    reveal(conn::model::response_sent);
}

#[verifier::rlimit(60)]
proof fn lemma_reset_narrows(c: ConnView, id: u32, error: ErrorCode)
    requires
        sound(c),
    ensures
        narrower(c, conn::model::stream_reset(c, id, error).0),
{
    reveal(conn::model::stream_reset);
}

/// Why a response is not complete: its windows are shut, or as much waits to go out as may.
pub open spec fn held_up(c: ConnView, p: PendingView, limit: int) -> bool {
    if p.stalled {
        shut(c, p.stream)
    } else {
        c.egress.first_len() >= limit
    }
}

#[verifier::rlimit(60)]
proof fn lemma_pumped(c: ConnView, p: PendingView, limit: int)
    requires
        sound(c),
        p.body.len() <= usize::MAX,
    ensures
        ({
            let (d, left, done) = model::pumped(c, p, limit);
            &&& narrower(c, d)
            &&& left.stream == p.stream
            &&& left.body == p.body
            &&& done == Ok::<bool, ConnError>(false) ==> held_up(d, left, limit)
        }),
    decreases p.body.len() - p.offset,
{
    if p.offset >= p.body.len() {
        lemma_fields_narrow(c, p.stream, p.trailers, true);
    } else if c.egress.first_len() >= limit {
    } else {
        let rest = p.body.subrange(p.offset as int, p.body.len() as int);
        let ends = p.trailers.len() == 0;
        lemma_sending_narrows(c, p.stream, rest, ends);
        conn::model::lemma_sending_keeps_ingress(c, p.stream);
        let (next, r) = conn::model::data_sent(c, p.stream, rest, ends);
        if let Ok(n) = r {
            if n > 0 {
                lemma_pumped(next, PendingView { offset: p.offset + n as nat, ..p }, limit);
            }
        }
    }
}

/// Whether the bodies of the responses are such as the machine holds.
pub open spec fn held(pending: Seq<PendingView>) -> bool {
    forall|i: int| 0 <= i < pending.len() ==> (#[trigger] pending[i]).body.len() <= usize::MAX
}

#[verifier::rlimit(60)]
proof fn lemma_round(v: ServerView, n: nat, limits: Limits)
    requires
        sound(v.conn),
        held(v.pending),
        n <= v.pending.len(),
        forall|i: int|
            n <= i < v.pending.len() ==> held_up(
                v.conn,
                #[trigger] v.pending[i],
                limits.max_outbound_bytes as int,
            ),
    ensures
        ({
            let w = model::round(v, n, limits, true);
            forall|i: int|
                0 <= i < w.pending.len() ==> held_up(
                    w.conn,
                    #[trigger] w.pending[i],
                    limits.max_outbound_bytes as int,
                )
        }),
    decreases n,
{
    if n > 0 {
        let first = v.pending[0];
        let p = PendingView { stalled: false, ..first };
        let rest = v.pending.drop_first();
        let limit = limits.max_outbound_bytes as int;
        lemma_pumped(v.conn, p, limit);
        let (c, left, done) = model::pumped(v.conn, p, limit);
        let next = if v.conn.egress.first_len() >= limit {
            ServerView { pending: rest.push(p), ..v }
        } else {
            ServerView {
                conn: c,
                pending: if done == Ok::<bool, ConnError>(false) {
                    rest.push(left)
                } else {
                    rest
                },
                ..v
            }
        };
        assert forall|i: int| (n - 1) <= i < next.pending.len() implies held_up(
            next.conn,
            #[trigger] next.pending[i],
            limit,
        ) by {
            if i < rest.len() {
                assert(next.pending[i] == v.pending[i + 1]);
            }
        }
        assert forall|i: int| 0 <= i < next.pending.len() implies (
        #[trigger] next.pending[i]).body.len() <= usize::MAX by {
            if i < rest.len() {
                assert(next.pending[i] == v.pending[i + 1]);
            }
        }
        lemma_round(next, (n - 1) as nat, limits);
    }
}

/// When a window has opened, every response that was held up is taken up again: one that is
/// not complete afterwards waits because its windows are shut, or because as much waits to go out
/// as may. No response stays marked as held up by a window that is open.
#[verifier::rlimit(60)]
pub proof fn law_open_windows_wake_responses(v: ServerView, limits: Limits)
    requires
        sound(v.conn),
        held(v.pending),
        v.conn.opened,
    ensures
        ({
            let w = model::woken(v, limits);
            forall|i: int|
                0 <= i < w.pending.len() ==> held_up(
                    w.conn,
                    #[trigger] w.pending[i],
                    limits.max_outbound_bytes as int,
                )
        }),
{
    reveal(model::woken);
    let next = v.with_conn(ConnView { opened: false, ..v.conn });
    lemma_round(next, next.pending.len(), limits);
}

#[verifier::rlimit(60)]
proof fn lemma_delivered(v: ServerView, id: u32, d: DispatchView, limits: Limits)
    requires
        sound(v.conn),
        held(v.pending),
        d matches DispatchView::Response(r) ==> r.body.len() <= usize::MAX,
    ensures
        narrower(v.conn, model::delivered(v, id, d, limits).conn),
        held(model::delivered(v, id, d, limits).pending),
{
    reveal(model::delivered);
    match d {
        DispatchView::Response(r) => {
            let ends = r.body.len() == 0 && r.trailers.len() == 0;
            lemma_fields_narrow(v.conn, id, r.fields, ends);
            let next = conn::model::response_sent(v.conn, id, r.fields, ends).0;
            let p = PendingView {
                stream: id,
                body: r.body,
                offset: 0,
                stalled: false,
                trailers: r.trailers,
                trailers_sent: false,
            };
            lemma_pumped(next, p, limits.max_outbound_bytes as int);
            let (c, left, done) = model::pumped(next, p, limits.max_outbound_bytes as int);
            lemma_reset_narrows(c, id, ErrorCode::EnhanceYourCalm);
        },
        DispatchView::Pending => {},
        DispatchView::Reset(error) => lemma_reset_narrows(v.conn, id, error),
    }
}

proof fn lemma_dropped(pending: Seq<PendingView>, id: u32)
    requires
        held(pending),
    ensures
        held(model::dropped(pending, id)),
    decreases pending.len(),
{
    reveal(Seq::filter);
    if pending.len() > 0 {
        assert(held(pending.drop_last())) by {
            assert forall|i: int| 0 <= i < pending.drop_last().len() implies (
            #[trigger] pending.drop_last()[i]).body.len() <= usize::MAX by {
                assert(pending.drop_last()[i] == pending[i]);
            }
        }
        lemma_dropped(pending.drop_last(), id);
        assert(pending.last() == pending[pending.len() - 1]);
    }
}

#[verifier::rlimit(60)]
proof fn lemma_taken(v: ServerView, event: EventView, limits: Limits)
    requires
        sound(v.conn),
        held(v.pending),
    ensures
        narrower(v.conn, model::event_taken(v, event, limits).0.conn),
        held(model::event_taken(v, event, limits).0.pending),
{
    reveal(model::event_taken);
    match event {
        EventView::Headers { stream, .. } => {
            lemma_reset_narrows(v.conn, stream, ErrorCode::EnhanceYourCalm);
        },
        EventView::Data { stream, .. } => {
            lemma_reset_narrows(v.conn, stream, ErrorCode::EnhanceYourCalm);
        },
        EventView::StreamReset { stream, .. } => lemma_dropped(v.pending, stream),
        _ => {},
    }
}

/// Whether what the owner of a server answers is such as the machine holds.
pub open spec fn answerable(replies: Seq<DispatchView>) -> bool {
    forall|i: int|
        0 <= i < replies.len() ==> ((#[trigger] replies[i]) matches DispatchView::Response(r)
            ==> r.body.len() <= usize::MAX)
}

#[verifier::rlimit(60)]
proof fn lemma_handled(v: ServerView, n: nat, limits: Limits, replies: Seq<DispatchView>)
    requires
        sound(v.conn),
        held(v.pending),
        n <= replies.len(),
        answerable(replies),
    ensures
        narrower(v.conn, model::handled(v, n, limits, replies).conn),
        held(model::handled(v, n, limits, replies).pending),
    decreases n,
{
    if n > 0 {
        let w = model::polled(v);
        let event = v.conn.ingress.events[0];
        lemma_taken(w, event, limits);
        let (next, done) = model::event_taken(w, event, limits);
        let after = match done {
            Some((id, request)) => model::delivered(next, id, replies[0], limits),
            None => next,
        };
        if let Some((id, _)) = done {
            lemma_delivered(next, id, replies[0], limits);
        }
        assert forall|i: int| 0 <= i < replies.drop_first().len() implies ((
        #[trigger] replies.drop_first()[i]) matches DispatchView::Response(r) ==> r.body.len()
            <= usize::MAX) by {
            assert(replies.drop_first()[i] == replies[i + 1]);
        }
        lemma_handled(after, (n - 1) as nat, limits, replies.drop_first());
    }
}

/// Whatever events there were besides, and whatever was answered to them: once a window has
/// opened and the events were dealt with, no response waits that could go on.
#[verifier::rlimit(60)]
pub proof fn law_responses_go_on(v: ServerView, limits: Limits, replies: Seq<DispatchView>)
    requires
        sound(v.conn),
        held(v.pending),
        v.conn.opened,
        v.conn.ingress.events.len() <= replies.len(),
        answerable(replies),
    ensures
        ({
            let w = model::drained(v, limits, replies);
            forall|i: int|
                0 <= i < w.pending.len() ==> held_up(
                    w.conn,
                    #[trigger] w.pending[i],
                    limits.max_outbound_bytes as int,
                )
        }),
{
    lemma_handled(v, v.conn.ingress.events.len(), limits, replies);
    let mid = model::handled(v, v.conn.ingress.events.len(), limits, replies);
    law_open_windows_wake_responses(mid, limits);
}

/// What the DATA frames of a stream carry, the last of which ends it.
pub open spec fn carried(s: Seq<u8>, id: u32) -> Option<Seq<u8>>
    decreases s.len(),
{
    match laws::first_frame(s) {
        Ok((FrameView::Data { stream, end_stream, payload }, n)) => {
            if stream != id || !(1 <= n <= s.len()) {
                None
            } else if end_stream {
                if n == s.len() {
                    Some(payload)
                } else {
                    None
                }
            } else {
                match carried(s.skip(n as int), id) {
                    Some(rest) => Some(payload + rest),
                    None => None,
                }
            }
        },
        _ => None,
    }
}

#[verifier::rlimit(60)]
pub proof fn lemma_carried(id: u32, ends: bool, payload: Seq<u8>, more: Seq<u8>)
    requires
        1 <= id <= 0x7fff_ffff,
        payload.len() <= 0xff_ffff,
    ensures
        ({
            let f = answers::framed(
                0,
                if ends {
                    1
                } else {
                    0
                },
                id as int,
                payload,
            );
            &&& ends && more.len() == 0 ==> carried(f + more, id) == Some(payload)
            &&& !ends && carried(more, id) is Some ==> carried(f + more, id) == Some(
                payload + carried(more, id).unwrap(),
            )
        }),
{
    let f = FrameView::Data { stream: id, end_stream: ends, payload };
    answers::lemma_octets(frame::frame_head(f));
    let flags: int = if ends {
        1
    } else {
        0
    };
    let wire = answers::framed(0, flags, id as int, payload);
    assert(frame::frame_wire(f) =~= wire);
    frame::law_frames_round_trip(f, more);
    reveal(laws::first_frame);
    assert((wire + more).skip(wire.len() as int) =~= more);
    assert(laws::first_frame(wire + more) == Ok::<(FrameView, nat), frame::ParseError>(
        (f, wire.len()),
    ));
}

/// A response whose windows are wide enough, with room for what it sends, is sent to its end:
/// the DATA frames that go out carry all that was left of the body, and the last of them ends the
/// stream.
#[verifier::rlimit(60)]
pub proof fn law_open_windows_let_the_rest_through(c: ConnView, p: PendingView, limit: int)
    requires
        conn::model::conn_inv(c),
        sent::may_send(c, p.stream),
        1 <= p.stream <= 0x7fff_ffff,
        p.offset < p.body.len() <= usize::MAX,
        p.trailers.len() == 0,
        p.body.len() - p.offset <= sent::open_for(c, p.stream),
        c.egress.has_room(10 * (p.body.len() - p.offset)),
        c.egress.bytes.len() + 10 * (p.body.len() - p.offset) <= limit,
    ensures
        ({
            let (d, left, done) = model::pumped(c, p, limit);
            let rest = p.body.skip(p.offset as int);
            let out = d.egress.bytes.skip(c.egress.bytes.len() as int);
            &&& done == Ok::<bool, ConnError>(true)
            &&& sent::put(c, d, out)
            &&& carried(out, p.stream) == Some(rest)
            &&& sent::has_ended(d, p.stream)
        }),
    decreases p.body.len() - p.offset,
{
    let id = p.stream;
    let rest = p.body.subrange(p.offset as int, p.body.len() as int);
    assert(rest =~= p.body.skip(p.offset as int));
    sent::law_bodies_go_out(c, id, rest, true);
    let n = sent::least(
        sent::least(rest.len() as int, sent::open_for(c, id)),
        c.peer.max_frame_size as int,
    );
    let (next, r) = conn::model::data_sent(c, id, rest, true);
    let ends = n == rest.len();
    let flags: int = if ends {
        1
    } else {
        0
    };
    let f = answers::framed(0, flags, id as int, rest.take(n));
    let q = PendingView { offset: p.offset + n as nat, ..p };
    assert(model::pumped(c, p, limit) == model::pumped(next, q, limit));
    let (d, left, done) = model::pumped(c, p, limit);
    let out = d.egress.bytes.skip(c.egress.bytes.len() as int);
    if ends {
        assert(rest.take(n) =~= rest);
        lemma_carried(id, true, rest, Seq::empty());
        assert(f + Seq::<u8>::empty() =~= f);
        assert(d == next);
        assert(out =~= f);
    } else {
        law_open_windows_let_the_rest_through(next, q, limit);
        let more = d.egress.bytes.skip(next.egress.bytes.len() as int);
        assert(out =~= f + more);
        lemma_carried(id, false, rest.take(n), more);
        assert(q.body.skip(q.offset as int) =~= rest.skip(n));
        assert(rest.take(n) + rest.skip(n) =~= rest);
        assert(d.egress.outgoing() =~= c.egress.outgoing() + out);
        assert(d.egress.bytes =~= c.egress.bytes + out);
    }
}

/// A response that was held up is finished once its windows have opened wide enough: all that was
/// left of its body goes out, the stream ends, and nothing is left to send.
#[verifier::rlimit(60)]
pub proof fn law_held_up_responses_are_finished(v: ServerView, p: PendingView, limits: Limits)
    requires
        conn::model::conn_inv(v.conn),
        v.pending == seq![p],
        v.conn.opened,
        sent::may_send(v.conn, p.stream),
        1 <= p.stream <= 0x7fff_ffff,
        p.offset < p.body.len() <= usize::MAX,
        p.trailers.len() == 0,
        p.body.len() - p.offset <= sent::open_for(v.conn, p.stream),
        v.conn.egress.has_room(10 * (p.body.len() - p.offset)),
        v.conn.egress.bytes.len() + 10 * (p.body.len() - p.offset) <= limits.max_outbound_bytes,
    ensures
        ({
            let w = model::woken(v, limits);
            let out = w.conn.egress.bytes.skip(v.conn.egress.bytes.len() as int);
            &&& w.pending.len() == 0
            &&& sent::put(v.conn, w.conn, out)
            &&& carried(out, p.stream) == Some(p.body.skip(p.offset as int))
            &&& sent::has_ended(w.conn, p.stream)
        }),
{
    reveal(model::woken);
    let next = v.with_conn(ConnView { opened: false, ..v.conn });
    let q = PendingView { stalled: false, ..p };
    law_open_windows_let_the_rest_through(next.conn, q, limits.max_outbound_bytes as int);
    assert(next.pending.drop_first() =~= Seq::<PendingView>::empty());
    let (c, left, done) = model::pumped(next.conn, q, limits.max_outbound_bytes as int);
    let after = ServerView { conn: c, pending: next.pending.drop_first(), ..next };
    assert(model::round(next, 1, limits, true) == model::round(after, 0, limits, true));
    assert(model::round(after, 0, limits, true) == after);
}

} // verus!
