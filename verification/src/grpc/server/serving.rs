//! What a server does with what comes for its calls, and how pieces of answers go out.

use crate::grpc::frame;
use crate::grpc::frame::FrameView;
use crate::grpc::headers;
use crate::grpc::headers::RequestHeadView;
use crate::grpc::server::delivery;
use crate::grpc::server::laws as server_laws;
use crate::grpc::server::limits::Limits;
use crate::grpc::server::model;
use crate::grpc::server::model::{CallView, Driven, Ended, PendingView, Said, Script, ServerView};
use crate::grpc::server::reply;
use crate::grpc::server::reply::{ReplyView, StreamMode};
use crate::grpc::server::routes;
use crate::grpc::status::{Code, StatusView};
use crate::h2::conn;
use crate::h2::conn::answers;
use crate::h2::conn::laws as conn_laws;
use crate::h2::conn::model::ConnView;
use crate::h2::conn::sent;
use crate::h2::error;
use crate::h2::error::ConnError;
use crate::h2::event::EventView;
use crate::h2::frame::ErrorCode;
use crate::h2::hpack::encoder;
use crate::h2::hpack::FieldView;
use vstd::prelude::*;

verus! {

/// A piece of an answer in which nothing is said.
pub open spec fn silent(r: ReplyView) -> bool {
    r.messages.len() == 0 && r.status is None && r.metadata.len() == 0
}

/// The head of a request opens a call, served as its handler says, while there is room; nothing is
/// sent for it.
#[verifier::rlimit(60)]
pub proof fn law_requests_open_calls(
    v: ServerView,
    id: u32,
    fields: Seq<FieldView>,
    head: RequestHeadView,
    l: Limits,
    s: Script,
)
    requires
        headers::request_head(fields) == Ok::<RequestHeadView, StatusView>(head),
        !v.calls.has(id),
        v.calls.calls.len() < v.calls.capacity,
        silent(s.start.reply),
    ensures
        ({
            let w = model::event_served(
                v,
                EventView::Headers { stream: id, fields, end_stream: false, trailing: false },
                l,
                s,
            );
            &&& w.conn == v.conn
            &&& w.calls.calls.remove(id) == v.calls.calls
            &&& w.calls.queue == v.calls.queue
            &&& w.calls.stream(id) matches Some(open) && open.head == head && open.mode
                == s.start.mode && open.messages.len() == 0 && open.trailers.len() == 0
                && open.deframer == frame::fresh(l.max_message_len)
        }),
{
    reveal(model::event_served);
    let w = model::event_served(
        v,
        EventView::Headers { stream: id, fields, end_stream: false, trailing: false },
        l,
        s,
    );
    assert(w.calls.calls.remove(id) =~= v.calls.calls);
}

/// The fields at the end of a request are kept for its handler; those that are not the
/// application's are left out.
#[verifier::rlimit(60)]
pub proof fn law_trailers_are_kept(
    v: ServerView,
    id: u32,
    fields: Seq<FieldView>,
    trailers: Seq<FieldView>,
    l: Limits,
    s: Script,
)
    requires
        headers::request_trailers(fields) == Ok::<Seq<FieldView>, StatusView>(trailers),
        v.calls.stream(id) is Some,
    ensures
        ({
            let w = model::event_served(
                v,
                EventView::Headers { stream: id, fields, end_stream: false, trailing: true },
                l,
                s,
            );
            &&& w.conn == v.conn
            &&& w.calls.stream(id) matches Some(open) && open.trailers == trailers && open.messages
                == v.calls.stream(id)->0.messages && open.head == v.calls.stream(id)->0.head
        }),
{
    reveal(model::event_served);
}

/// What a peer resets is forgotten: its call is gone and waits for nothing, no route leads to it,
/// and nothing is sent. Every other call stays.
#[verifier::rlimit(60)]
pub proof fn law_reset_calls_are_forgotten(
    v: ServerView,
    id: u32,
    error: ErrorCode,
    l: Limits,
    s: Script,
)
    ensures
        ({
            let w = model::event_served(v, EventView::StreamReset { stream: id, error }, l, s);
            &&& !w.calls.has(id)
            &&& w.calls.calls == v.calls.calls.remove(id)
            &&& !w.routes.routes.contains_key(id)
            &&& w.conn == v.conn
            &&& v.calls.has(id) && v.calls.calls[id].queued ==> !w.calls.queue.contains(id)
            &&& v.calls.has(id) && (v.calls.calls[id].pending matches Some(p) && p.remaining
                <= v.calls.pending_len) ==> w.calls.pending_len + v.calls.calls[
                id
            ].pending->0.remaining == v.calls.pending_len
        }),
{
    reveal(model::event_served);
    let w = model::event_served(v, EventView::StreamReset { stream: id, error }, l, s);
    assert(w.calls.calls =~= v.calls.calls.remove(id));
    if v.calls.has(id) && v.calls.calls[id].queued {
        let left = w.calls.queue;
        if left.contains(id) {
            let k = left.index_of(id);
            v.calls.queue.lemma_filter_pred(|item: u32| item != id, k);
        }
    }
}

/// Bytes for a call that is not there are refused; so is a message that is compressed where it is
/// served as it comes, and one that is more than is kept where it waits.
#[verifier::rlimit(60)]
pub proof fn law_bad_data_is_refused(
    v: ServerView,
    id: u32,
    data: Seq<u8>,
    m: FrameView,
    l: Limits,
    s: Script,
    said: Said,
)
    requires
        data.len() > 0,
    ensures
        v.calls.stream(id) is None ==> model::event_served(
            v,
            EventView::Data { stream: id, data, end_stream: false },
            l,
            s,
        ) == model::error_sent(
            v,
            id,
            StatusView { code: Code::Internal, message: "DATA before gRPC headers"@ },
        ),
        v.calls.stream(id) matches Some(open) ==> {
            &&& open.mode == StreamMode::Live && m.compressed ==> model::message_served(
                v,
                id,
                m,
                l,
                said,
            ) == (
                model::error_sent(
                    v,
                    id,
                    StatusView {
                        code: Code::Unimplemented,
                        message: "compressed messages are not supported"@,
                    },
                ),
                false,
            )
            &&& open.mode == StreamMode::Buffered && (open.messages.len() >= l.max_buffered_msgs || (
            open.buffered_len + m.payload.len() <= usize::MAX && open.buffered_len
                + m.payload.len() > l.max_buffered_len)) ==> model::message_served(
                v,
                id,
                m,
                l,
                said,
            ) == (
                model::error_sent(
                    v,
                    id,
                    StatusView {
                        code: Code::ResourceExhausted,
                        message: "stream buffer limit exceeded"@,
                    },
                ),
                false,
            )
        },
{
    reveal(model::event_served);
}

/// A failure for which the fields of an answer find no room resets the stream with the reason that
/// this end has failed; the call is gone.
#[verifier::rlimit(60)]
pub proof fn law_failures_without_room_reset_the_stream(v: ServerView, id: u32, s: StatusView)
    requires
        conn::model::conn_inv(v.conn),
        sent::may_send(v.conn, id),
        1 <= id <= 0x7fff_ffff,
        conn::model::response_sent(v.conn, id, headers::response_head_fields(), false).1 is Err,
        v.conn.egress.has_room(13),
    ensures
        ({
            let w = model::error_sent(v, id, s);
            &&& !w.calls.has(id)
            &&& !w.conn.has_stream(id)
            &&& sent::put(
                v.conn,
                w.conn,
                answers::framed(3, 0, id as int, seq![0u8, 0, 0, 2]),
            )
        }),
{
    reveal(model::error_sent);
    reveal(conn::model::response_sent);
    let list = headers::response_head_fields();
    let (next, r) = conn::model::response_sent(v.conn, id, list, false);
    sent::law_fields_go_out(v.conn, id, list, false);
    assert(conn::model::conn_inv(next));
    assert(next.egress.outgoing() == v.conn.egress.outgoing());
    sent::law_resets_go_out(next, id, ErrorCode::InternalError);
    assert(answers::word(2) =~= seq![0u8, 0, 0, 2]);
}

/// A failure of the connection is told with GOAWAY: the last stream of the peer that was seen, and
/// the number of the reason. Without a failure nothing is sent.
#[verifier::rlimit(60)]
pub proof fn law_broken_connections_are_given_up(v: ServerView, failure: ConnError)
    requires
        conn::model::conn_inv(v.conn),
        v.conn.egress.has_room(17),
    ensures
        model::given_up(v, None) == v,
        ({
            let w = model::given_up(v, Some(failure));
            let code = crate::h2::frame::error_number(error::code_for(failure));
            &&& w.conn.goaway_sent
            &&& w.calls == v.calls
            &&& sent::put(
                v.conn,
                w.conn,
                answers::framed(
                    7,
                    0,
                    0,
                    answers::word(v.conn.streams.last_peer as int) + answers::word(code as int),
                ),
            )
        }),
{
    let none = Seq::<u8>::empty();
    sent::law_pings_and_goaway_go_out(
        v.conn,
        seq![0u8, 0, 0, 0, 0, 0, 0, 0],
        error::code_for(failure),
        none,
        Seq::empty(),
        false,
    );
    let code = crate::h2::frame::error_number(error::code_for(failure));
    let said = answers::word(v.conn.streams.last_peer as int) + answers::word(code as int);
    assert(said + none =~= said);
}

/// A call goes to the first route with its path, and one with a path that no route has is not
/// implemented.
pub proof fn law_calls_find_their_route(paths: Seq<Seq<u8>>, path: Seq<u8>, i: int)
    requires
        0 <= i <= paths.len(),
        i < paths.len() ==> paths[i] == path,
        forall|k: int| 0 <= k < i ==> #[trigger] paths[k] != path,
    ensures
        i < paths.len() ==> routes::place_of(paths, path) == Some(i),
        i == paths.len() ==> routes::place_of(paths, path) is None,
        routes::unknown_method() == (StatusView {
            code: Code::Unimplemented,
            message: "unknown gRPC method"@,
        }),
    decreases paths.len(),
{
    if paths.len() > 0 && i > 0 {
        let rest = paths.drop_first();
        assert(paths[0] != path);
        assert forall|k: int| 0 <= k < i - 1 implies #[trigger] rest[k] != path by {
            assert(rest[k] == paths[k + 1]);
        }
        law_calls_find_their_route(rest, path, i - 1);
    }
}

/// Messages whose windows are wide enough, with room for what is sent, are sent to their end.
#[verifier::spinoff_prover]
#[verifier::rlimit(60)]
proof fn lemma_pieces(c: ConnView, id: u32, p: PendingView, len: usize)
    requires
        conn::model::conn_inv(c),
        sent::may_send(c, id),
        1 <= id <= 0x7fff_ffff,
        delivery::short(p.messages),
        p.messages.len() > 0 ==> p.frame_pos < 5 + p.messages[0].len(),
        p.messages.len() == 0 ==> p.frame_pos == 0,
        p.trailers is None,
        server_laws::wire(p.messages).len() <= usize::MAX,
        server_laws::waiting(p).len() <= sent::open_for(c, id),
        c.egress.has_room(10 * server_laws::waiting(p).len() as int),
    ensures
        ({
            let (d, left, n, out) = model::messages_driven(c, id, p, len);
            let body = d.egress.bytes.skip(c.egress.bytes.len() as int);
            &&& out == Driven::Idle
            &&& sent::put(c, d, body)
            &&& delivery::carried(body, id) == Some(server_laws::waiting(p))
            &&& sent::may_send(d, id)
            &&& left.messages.len() == 0
            &&& left.frame_pos == 0
            &&& left.trailers is None
            &&& left.headers_sent == p.headers_sent
        }),
    decreases
            p.messages.len(),
            (if p.messages.len() > 0 {
                p.messages[0].len() + frame::PREFIX_LEN - p.frame_pos
            } else {
                0
            }),
{
    let (d, left, out_len, out) = model::messages_driven(c, id, p, len);
    if p.messages.len() == 0 {
        assert(d.egress.bytes.skip(c.egress.bytes.len() as int) =~= Seq::<u8>::empty());
        assert(server_laws::waiting(p) =~= Seq::<u8>::empty());
        assert(c.egress.bytes + Seq::<u8>::empty() =~= c.egress.bytes);
        assert(c.egress.outgoing() + Seq::<u8>::empty() =~= c.egress.outgoing());
    } else {
        let whole = frame::framed(reply::plain(p.messages[0]));
        let tail = server_laws::wire(p.messages.drop_first());
        assert(whole.len() == p.messages[0].len() + frame::PREFIX_LEN);
        assert(server_laws::wire(p.messages) =~= whole + tail);
        let rest = whole.skip(p.frame_pos as int);
        assert(server_laws::waiting(p) =~= rest + tail);
        assert(p.messages[0].len() <= u32::MAX);
        sent::law_bodies_go_out(c, id, rest, false);
        let n = sent::least(
            sent::least(rest.len() as int, sent::open_for(c, id)),
            c.peer.max_frame_size as int,
        );
        let (next, r) = conn::model::data_sent(c, id, rest, false);
        let f = answers::framed(0, 0, id as int, rest.take(n));
        let sent_on = PendingView { remaining: model::less(p.remaining, n as usize), ..p };
        let moved = if p.frame_pos + n == whole.len() {
            PendingView {
                messages: p.messages.drop_first(),
                batches: model::shorter(p.batches),
                frame_pos: 0,
                ..sent_on
            }
        } else {
            PendingView { frame_pos: (p.frame_pos + n) as nat, ..sent_on }
        };
        assert forall|i: int| 0 <= i < p.messages.drop_first().len() implies (
        #[trigger] p.messages.drop_first()[i]).len() <= u32::MAX by {
            assert(p.messages.drop_first()[i] == p.messages[i + 1]);
        }
        assert(server_laws::waiting(moved) =~= rest.skip(n) + tail);
        assert(rest.take(n) + server_laws::waiting(moved) =~= server_laws::waiting(p));
        assert(f.len() == 9 + n);
        lemma_pieces(next, id, moved, model::less(len, n as usize));
        assert(model::messages_driven(next, id, moved, model::less(len, n as usize)) == (
            d,
            left,
            out_len,
            out,
        ));
        let body = d.egress.bytes.skip(next.egress.bytes.len() as int);
        delivery::lemma_carried(id, rest.take(n), body);
        let all = f + body;
        assert(d.egress.bytes.skip(c.egress.bytes.len() as int) =~= all);
        assert(d.egress.bytes =~= c.egress.bytes + all);
        assert(d.egress.outgoing() =~= c.egress.outgoing() + all);
    }
}

/// A call of which nothing was said yet, or of which the head was sent and nothing waits.
pub open spec fn quiet(v: ServerView, id: u32) -> bool {
    &&& v.calls.has(id)
    &&& !v.calls.calls[id].queued
    &&& v.calls.queue.len() == 0
    &&& v.calls.calls[id].pending matches Some(p) ==> p.headers_sent && p.messages.len() == 0
        && p.frame_pos == 0 && p.trailers is None && p.batches.len() == 0 && p.remaining == 0
}

/// Whether there is room for a piece of an answer: its windows, the bytes that may wait, and the
/// bytes that go out.
pub open spec fn finds_room(
    v: ServerView,
    id: u32,
    fields: Seq<FieldView>,
    messages: Seq<Seq<u8>>,
    ending: int,
) -> bool {
    let n = delivery::joined(messages).len();
    &&& v.calls.pending_len + n <= v.calls.pending_capacity
    &&& v.calls.queue_capacity > 0
    &&& v.calls.replies.gives(false)
    &&& n <= sent::open_for(v.conn, id)
    &&& v.conn.egress.has_room(
        delivery::fields_len(v.conn, id, fields, false) + 10 * n + ending,
    )
}

/// Pieces of an answer go out as they come: before the first of them a block of fields that opens
/// the answer, and then DATA frames that carry the messages of the piece in order, none of which
/// ends the stream. The call goes on, and nothing waits.
#[verifier::spinoff_prover]
#[verifier::rlimit(60)]
pub proof fn law_pieces_go_out(
    v: ServerView,
    id: u32,
    r: ReplyView,
    fields: Seq<FieldView>,
    place: bool,
) -> (parts: (Seq<u8>, Seq<u8>))
    requires
        conn::model::conn_inv(v.conn),
        sent::may_send(v.conn, id),
        1 <= id <= 0x7fff_ffff,
        quiet(v, id),
        r.status is None,
        r.messages.len() > 0,
        delivery::short(r.messages),
        headers::response_fields(r.metadata) == Ok::<Seq<FieldView>, StatusView>(fields),
        finds_room(v, id, fields, r.messages, 0),
    ensures
        ({
            let w = model::pumped(model::replied(v, id, r, place));
            let first = v.calls.calls[id].pending is None;
            &&& sent::put(v.conn, w.conn, parts.0 + parts.1)
            &&& first ==> conn_laws::gathered(parts.0, id, true) == Some(
                encoder::block_wire(v.conn.egress.encoder, fields),
            ) && parts.0[4] % 2 == 0
            &&& !first ==> parts.0.len() == 0
            &&& delivery::carried(parts.1, id) == Some(delivery::joined(r.messages))
            &&& w.calls.has(id)
            &&& w.calls.calls[id].stream == v.calls.calls[id].stream
            &&& w.calls.calls[id].pending matches Some(p) && p.headers_sent && p.messages.len()
                == 0 && p.trailers is None
            &&& sent::may_send(w.conn, id)
        }),
{
    delivery::lemma_joined(r.messages);
    delivery::lemma_framed_len(r.messages, 0);
    let n = delivery::joined(r.messages).len();
    let call = v.calls.calls[id];
    let first = call.pending is None;
    let p = model::extended(call.pending, fields, r.messages, None, n);
    assert(call.pending matches Some(q) ==> q.messages + r.messages =~= r.messages);
    assert(p.messages == r.messages);
    let mid = model::replied(v, id, r, place);
    let kept = CallView { pending: Some(p), queued: true, ..call };
    assert(mid.calls.calls[id] == kept);
    assert(mid.calls.queue =~= seq![id]);
    assert(mid.conn == v.conn);
    let q = PendingView { headers_sent: true, ..p };
    assert(server_laws::waiting(q) =~= server_laws::wire(r.messages));
    let c1 = if first {
        conn::model::response_sent(v.conn, id, fields, false).0
    } else {
        v.conn
    };
    sent::law_fields_go_out(v.conn, id, fields, false);
    let head = c1.egress.bytes.skip(v.conn.egress.bytes.len() as int);
    if !first {
        assert(head =~= Seq::<u8>::empty());
        assert(q == p);
        assert(v.conn.egress.bytes + head =~= v.conn.egress.bytes);
        assert(v.conn.egress.outgoing() + head =~= v.conn.egress.outgoing());
    }
    lemma_pieces(c1, id, q, mid.calls.pending_len);
    let (c2, left, _, out) = model::messages_driven(c1, id, q, mid.calls.pending_len);
    let body = c2.egress.bytes.skip(c1.egress.bytes.len() as int);
    reveal(model::turn);
    let (calls, c3) = model::turn(mid.calls, mid.conn);
    assert(c3 == c2);
    assert(model::flushed(mid.calls, mid.conn, 1) == model::flushed(calls, c3, 0));
    assert(model::flushed(calls, c3, 0) == (calls, c3));
    assert(c3.egress.bytes =~= v.conn.egress.bytes + (head + body));
    assert(c3.egress.outgoing() =~= v.conn.egress.outgoing() + (head + body));
    (head, body)
}

/// An answer whose handler has not said how it ends has ended well: the code is zero and there is
/// no text. One of which it was said ends as it was said.
pub proof fn law_ends_are_okay_unless_said(r: ReplyView, s: StatusView)
    ensures
        r.status is None ==> model::ending(r) == (ReplyView {
            status: Some(StatusView { code: Code::Okay, message: Seq::empty() }),
            ..r
        }),
        r.status == Some(s) ==> model::ending(r) == r,
{
}

/// Where it ends after pieces that have gone out, an answer sends its last messages and then a
/// block with its status and its trailers that ends the stream; the call is gone.
#[verifier::spinoff_prover]
#[verifier::rlimit(60)]
pub proof fn law_live_answers_end(
    v: ServerView,
    id: u32,
    end: Ended,
    r: ReplyView,
    s: StatusView,
    fields: Seq<FieldView>,
    trailers: Seq<FieldView>,
) -> (parts: (Seq<u8>, Seq<u8>))
    requires
        conn::model::conn_inv(v.conn),
        sent::may_send(v.conn, id),
        1 <= id <= 0x7fff_ffff,
        quiet(v, id),
        v.calls.calls[id].pending is Some,
        v.calls.stream(id) matches Some(open) && open.mode == StreamMode::Live,
        end.said.reply == r,
        s == (match r.status {
            Some(given) => given,
            None => StatusView { code: Code::Okay, message: Seq::empty() },
        }),
        delivery::short(r.messages),
        headers::response_fields(r.metadata) == Ok::<Seq<FieldView>, StatusView>(fields),
        headers::trailer_fields(s, r.trailers) == Ok::<Seq<FieldView>, StatusView>(trailers),
        finds_room(v, id, fields, r.messages, delivery::fields_len(v.conn, id, trailers, true)),
    ensures
        ({
            let w = model::end_served(v, id, end);
            &&& sent::put(v.conn, w.conn, parts.0 + parts.1)
            &&& delivery::carried(parts.0, id) == Some(delivery::joined(r.messages))
            &&& conn_laws::gathered(parts.1, id, true) == Some(
                encoder::block_wire(v.conn.egress.encoder, trailers),
            )
            &&& parts.1[4] % 2 == 1
            &&& sent::has_ended(w.conn, id)
            &&& !w.calls.has(id)
        }),
{
    delivery::lemma_joined(r.messages);
    delivery::lemma_framed_len(r.messages, 0);
    let n = delivery::joined(r.messages).len();
    let open = ServerView {
        calls: model::taken(v.calls, id),
        routes: end.said.routes,
        ..v
    };
    let call = open.calls.calls[id];
    let last = model::ending(r);
    assert(last.status == Some(s));
    let p = model::extended(call.pending, fields, r.messages, Some(trailers), n);
    assert(call.pending matches Some(q) ==> q.messages + r.messages =~= r.messages);
    assert(p.messages == r.messages && p.headers_sent);
    let mid = model::replied(open, id, last, end.said.place);
    let kept = CallView { pending: Some(p), queued: true, ..call };
    assert(mid.calls.calls[id] == kept);
    assert(mid.calls.queue =~= seq![id]);
    assert(mid.conn == v.conn);
    assert(server_laws::waiting(p) =~= server_laws::wire(r.messages));
    let (body, tail) = delivery::lemma_messages(v.conn, id, p, mid.calls.pending_len);
    reveal(model::turn);
    let (calls, c2) = model::turn(mid.calls, mid.conn);
    assert(model::flushed(mid.calls, mid.conn, 1) == model::flushed(calls, c2, 0));
    assert(model::flushed(calls, c2, 0) == (calls, c2));
    assert(model::end_served(v, id, end) == model::pumped(mid));
    (body, tail)
}

/// A request that its handler fails is answered with the failure; its request is taken out first.
#[verifier::rlimit(60)]
pub proof fn law_failed_requests_are_told(v: ServerView, id: u32, end: Ended, s: StatusView)
    requires
        v.calls.stream(id) matches Some(open) && open.mode == StreamMode::Buffered,
        end.outcome == Err::<reply::ResponseView, StatusView>(s),
    ensures
        ({
            let w = model::end_served(v, id, end);
            &&& w.conn == model::error_sent(v, id, s).conn
            &&& !w.calls.has(id)
        }),
{
    reveal(model::error_sent);
}

} // verus!
