//! What a handler answers reaches the peer.

use crate::bytes;
use crate::grpc::frame;
use crate::grpc::headers;
use crate::grpc::laws;
use crate::grpc::server::laws as server_laws;
use crate::grpc::server::model;
use crate::grpc::server::model::{CallView, Driven, Ended, PendingView, ServerView};
use crate::grpc::server::reply;
use crate::grpc::server::reply::{ResponseView, StreamMode};
use crate::grpc::status::StatusView;
use crate::h2::conn;
use crate::h2::conn::answers;
use crate::h2::conn::laws as conn_laws;
use crate::h2::conn::model::ConnView;
use crate::h2::conn::sent;
use crate::h2::egress;
use crate::h2::frame as h2_frame;
use crate::h2::frame::FrameView;
use crate::h2::hpack::encoder;
use crate::h2::hpack::FieldView;
use vstd::prelude::*;

verus! {

/// What DATA frames carry, none of which ends the stream.
pub open spec fn carried(s: Seq<u8>, id: u32) -> Option<Seq<u8>>
    decreases s.len(),
{
    if s.len() == 0 {
        Some(Seq::empty())
    } else {
        match conn_laws::first_frame(s) {
            Ok((FrameView::Data { stream, end_stream, payload }, n)) => {
                if stream != id || end_stream || !(1 <= n <= s.len()) {
                    None
                } else {
                    match carried(s.skip(n as int), id) {
                        Some(rest) => Some(payload + rest),
                        None => None,
                    }
                }
            },
            _ => None,
        }
    }
}

#[verifier::rlimit(60)]
pub proof fn lemma_carried(id: u32, payload: Seq<u8>, more: Seq<u8>)
    requires
        1 <= id <= 0x7fff_ffff,
        payload.len() <= 0xff_ffff,
        carried(more, id) is Some,
    ensures
        carried(answers::framed(0, 0, id as int, payload) + more, id) == Some(
            payload + carried(more, id).unwrap(),
        ),
{
    let f = FrameView::Data { stream: id, end_stream: false, payload };
    answers::lemma_octets(h2_frame::frame_head(f));
    let wire = answers::framed(0, 0, id as int, payload);
    assert(h2_frame::frame_wire(f) =~= wire);
    h2_frame::law_frames_round_trip(f, more);
    reveal(conn_laws::first_frame);
    assert((wire + more).skip(wire.len() as int) =~= more);
    assert(conn_laws::first_frame(wire + more) == Ok::<(FrameView, nat), h2_frame::ParseError>(
        (f, wire.len()),
    ));
}

/// Messages as the bytes of a stream: of each a byte that says that it is not compressed, four
/// bytes that hold its length, and the message.
pub open spec fn joined(messages: Seq<Seq<u8>>) -> Seq<u8>
    decreases messages.len(),
{
    if messages.len() == 0 {
        Seq::empty()
    } else {
        seq![0u8] + answers::word(messages[0].len() as int) + messages[0] + joined(
            messages.drop_first(),
        )
    }
}

/// Whether every message is short enough to be framed.
pub open spec fn short(messages: Seq<Seq<u8>>) -> bool {
    forall|i: int| 0 <= i < messages.len() ==> (#[trigger] messages[i]).len() <= u32::MAX
}

pub proof fn lemma_joined(messages: Seq<Seq<u8>>)
    requires
        short(messages),
    ensures
        joined(messages) == server_laws::wire(messages),
    decreases messages.len(),
{
    if messages.len() > 0 {
        let rest = messages.drop_first();
        assert forall|i: int| 0 <= i < rest.len() implies (#[trigger] rest[i]).len()
            <= u32::MAX by {
            assert(rest[i] == messages[i + 1]);
        }
        lemma_joined(rest);
        let n = messages[0].len() as u32;
        assert(bytes::wire32(n) =~= answers::word(n as int));
        assert(frame::framed(reply::plain(messages[0])) =~= seq![0u8] + answers::word(n as int)
            + messages[0]);
    }
}

pub proof fn lemma_framed_len(messages: Seq<Seq<u8>>, total: nat)
    requires
        short(messages),
        total + server_laws::wire(messages).len() <= usize::MAX,
    ensures
        model::framed_len(messages, total) == Ok::<nat, StatusView>(
            total + server_laws::wire(messages).len(),
        ),
    decreases messages.len(),
{
    if messages.len() > 0 {
        let rest = messages.drop_first();
        assert forall|i: int| 0 <= i < rest.len() implies (#[trigger] rest[i]).len()
            <= u32::MAX by {
            assert(rest[i] == messages[i + 1]);
        }
        assert(frame::framed(reply::plain(messages[0])).len() == messages[0].len()
            + frame::PREFIX_LEN);
        lemma_framed_len(rest, total + messages[0].len() + frame::PREFIX_LEN as nat);
    }
}

/// How many bytes a list of fields takes, with the frames around it.
pub open spec fn fields_len(c: ConnView, id: u32, list: Seq<FieldView>, end_stream: bool) -> int {
    egress::header_frames(
        id,
        encoder::block_wire(c.egress.encoder, list),
        end_stream,
        c.peer.max_frame_size as int,
    ).len() as int
}

/// Messages whose windows are wide enough, with room for what is sent, are sent to their end,
/// and then the fields that end the answer.
#[verifier::spinoff_prover]
#[verifier::rlimit(60)]
pub proof fn lemma_messages(c: ConnView, id: u32, p: PendingView, len: usize) -> (parts: (
    Seq<u8>,
    Seq<u8>,
))
    requires
        conn::model::conn_inv(c),
        sent::may_send(c, id),
        1 <= id <= 0x7fff_ffff,
        short(p.messages),
        p.messages.len() > 0 ==> p.frame_pos < 5 + p.messages[0].len(),
        p.messages.len() == 0 ==> p.frame_pos == 0,
        p.trailers is Some,
        server_laws::wire(p.messages).len() <= usize::MAX,
        server_laws::waiting(p).len() <= sent::open_for(c, id),
        c.egress.has_room(
            10 * server_laws::waiting(p).len() + fields_len(c, id, p.trailers->0, true),
        ),
    ensures
        ({
            let (d, left, n, out) = model::messages_driven(c, id, p, len);
            let (body, end) = parts;
            &&& out == Driven::Complete
            &&& sent::put(c, d, body + end)
            &&& carried(body, id) == Some(server_laws::waiting(p))
            &&& conn_laws::gathered(end, id, true) == Some(
                encoder::block_wire(c.egress.encoder, p.trailers->0),
            )
            &&& end[4] % 2 == 1
            &&& sent::has_ended(d, id)
        }),
    decreases
            p.messages.len(),
            (if p.messages.len() > 0 {
                p.messages[0].len() + frame::PREFIX_LEN - p.frame_pos
            } else {
                0
            }),
{
    let (d, left, out_len, out) = model::messages_driven(c, id, p, len);
    if p.messages.len() == 0 {
        let list = p.trailers->0;
        sent::law_fields_go_out(c, id, list, true);
        let end = d.egress.bytes.skip(c.egress.bytes.len() as int);
        let body = Seq::<u8>::empty();
        assert(body + end =~= end);
        assert(server_laws::waiting(p) =~= Seq::<u8>::empty());
        (body, end)
    } else {
        let whole = frame::framed(reply::plain(p.messages[0]));
        let tail = server_laws::wire(p.messages.drop_first());
        assert(whole.len() == p.messages[0].len() + frame::PREFIX_LEN);
        assert(server_laws::wire(p.messages) =~= whole + tail);
        let rest = whole.skip(p.frame_pos as int);
        assert(server_laws::waiting(p) =~= rest + tail);
        assert(p.messages[0].len() <= u32::MAX);
        sent::law_bodies_go_out(c, id, rest, false);
        let n = sent::least(
            sent::least(rest.len() as int, sent::open_for(c, id)),
            c.peer.max_frame_size as int,
        );
        let (next, r) = conn::model::data_sent(c, id, rest, false);
        let f = answers::framed(0, 0, id as int, rest.take(n));
        let sent_on = PendingView { remaining: model::less(p.remaining, n as usize), ..p };
        let moved = if p.frame_pos + n == whole.len() {
            PendingView {
                messages: p.messages.drop_first(),
                batches: model::shorter(p.batches),
                frame_pos: 0,
                ..sent_on
            }
        } else {
            PendingView { frame_pos: (p.frame_pos + n) as nat, ..sent_on }
        };
        assert forall|i: int| 0 <= i < p.messages.drop_first().len() implies (
        #[trigger] p.messages.drop_first()[i]).len() <= u32::MAX by {
            assert(p.messages.drop_first()[i] == p.messages[i + 1]);
        }
        assert(server_laws::waiting(moved) =~= rest.skip(n) + tail);
        assert(rest.take(n) + server_laws::waiting(moved) =~= server_laws::waiting(p));
        assert(f.len() == 9 + n);
        let (body, end) = lemma_messages(next, id, moved, model::less(len, n as usize));
        lemma_carried(id, rest.take(n), body);
        assert(model::messages_driven(next, id, moved, model::less(len, n as usize)) == (
            d,
            left,
            out_len,
            out,
        ));
        let all = f + body;
        assert(all + end =~= f + (body + end));
        assert(d.egress.bytes =~= c.egress.bytes + (all + end));
        assert(d.egress.outgoing() =~= c.egress.outgoing() + (all + end));
        (all, end)
    }
}

/// The three parts of an answer on the wire, and the fields that open it and end it.
pub struct Parts {
    pub head: Seq<u8>,
    pub body: Seq<u8>,
    pub end: Seq<u8>,
    pub fields: Seq<FieldView>,
    pub trailers: Seq<FieldView>,
}

/// Whether there is room for an answer: its windows, the bytes that may wait, and the bytes that
/// go out.
pub open spec fn finds_room(v: ServerView, id: u32, a: Parts, messages: Seq<Seq<u8>>) -> bool {
    let n = joined(messages).len();
    let after = ConnView {
        egress: egress::EgressView {
            encoder: encoder::after_block(v.conn.egress.encoder, a.fields),
            ..v.conn.egress
        },
        ..v.conn
    };
    &&& v.calls.pending_len + n <= v.calls.pending_capacity
    &&& v.calls.queue_capacity > 0
    &&& v.calls.replies.gives(false)
    &&& n <= sent::open_for(v.conn, id)
    &&& v.conn.egress.has_room(
        fields_len(v.conn, id, a.fields, false) + 10 * n + fields_len(after, id, a.trailers, true),
    )
}

/// What a handler answers to a request that is complete reaches the peer. The bytes that go out
/// are three parts: a block of fields, that the peer reads as the metadata of the answer; DATA
/// frames, that carry its messages in order; and a block that ends the stream, that the peer reads
/// as the status of the answer and its trailers. The call is then gone.
#[verifier::spinoff_prover]
#[verifier::rlimit(60)]
pub proof fn law_answers_reach_the_peer(v: ServerView, id: u32, end: Ended, r: ResponseView, a: Parts) -> (parts:
    Parts)
    requires
        conn::model::conn_inv(v.conn),
        sent::may_send(v.conn, id),
        1 <= id <= 0x7fff_ffff,
        v.calls.stream(id) matches Some(s) && s.mode == StreamMode::Buffered,
        v.calls.calls[id].pending is None,
        !v.calls.calls[id].queued,
        v.calls.queue.len() == 0,
        end.outcome == Ok::<ResponseView, StatusView>(r),
        laws::names_are_good(r.metadata),
        laws::names_are_good(r.trailers),
        short(r.messages),
        headers::response_fields(r.metadata) == Ok::<Seq<FieldView>, StatusView>(a.fields),
        headers::trailer_fields(r.status, r.trailers) == Ok::<Seq<FieldView>, StatusView>(
            a.trailers,
        ),
        finds_room(v, id, a, r.messages),
    ensures
        parts.fields == a.fields && parts.trailers == a.trailers,
        headers::response_head(parts.fields) == Ok::<Seq<FieldView>, StatusView>(r.metadata),
        headers::response_trailers(parts.trailers) == Ok::<
            (StatusView, Seq<FieldView>),
            StatusView,
        >((r.status, r.trailers)),
        ({
            let w = model::end_served(v, id, end);
            &&& !w.calls.has(id)
            &&& sent::put(v.conn, w.conn, parts.head + parts.body + parts.end)
            &&& conn_laws::gathered(parts.head, id, true) == Some(
                encoder::block_wire(v.conn.egress.encoder, parts.fields),
            )
            &&& parts.head[4] % 2 == 0
            &&& carried(parts.body, id) == Some(joined(r.messages))
            &&& conn_laws::gathered(parts.end, id, true) == Some(
                encoder::block_wire(
                    encoder::after_block(v.conn.egress.encoder, parts.fields),
                    parts.trailers,
                ),
            )
            &&& parts.end[4] % 2 == 1
            &&& sent::has_ended(w.conn, id)
        }),
{
    laws::law_responses_are_read_back(r.metadata);
    laws::law_endings_are_read_back(r.status, r.trailers);
    lemma_joined(r.messages);
    let n = joined(r.messages).len();
    lemma_framed_len(r.messages, 0);
    let open = ServerView { calls: model::taken(v.calls, id), ..v };
    let p = PendingView {
        fields: a.fields,
        messages: r.messages,
        batches: model::with_batch(Seq::empty(), r.messages.len()),
        trailers: Some(a.trailers),
        headers_sent: false,
        frame_pos: 0,
        remaining: n as usize,
    };
    let place = end.said.place;
    let kept = model::enqueued(open.calls, id, model::whole(r), place);
    let call = CallView { stream: None, pending: Some(p), queued: true };
    assert(kept.1 is Ok);
    assert(kept.0.calls[id] == call);
    assert(kept.0.queue =~= seq![id]);
    let mid = model::replied(open, id, model::whole(r), place);
    assert(mid.calls == kept.0 && mid.conn == v.conn);
    assert(model::end_served(v, id, end) == model::pumped(mid));
    sent::law_fields_go_out(v.conn, id, a.fields, false);
    let c1 = conn::model::response_sent(v.conn, id, a.fields, false).0;
    let head = c1.egress.bytes.skip(v.conn.egress.bytes.len() as int);
    let q = PendingView { headers_sent: true, ..p };
    assert(server_laws::waiting(q) =~= server_laws::wire(r.messages));
    let (body, tail) = lemma_messages(c1, id, q, mid.calls.pending_len);
    reveal(model::turn);
    let (calls, c2) = model::turn(mid.calls, mid.conn);
    assert(model::flushed(mid.calls, mid.conn, 1) == model::flushed(calls, c2, 0));
    assert(model::flushed(calls, c2, 0) == (calls, c2));
    assert(head + body + tail =~= head + (body + tail));
    assert(c2.egress.bytes =~= v.conn.egress.bytes + (head + body + tail));
    assert(c2.egress.outgoing() =~= v.conn.egress.outgoing() + (head + body + tail));
    Parts { head, body, end: tail, fields: a.fields, trailers: a.trailers }
}

} // verus!
