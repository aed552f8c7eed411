//! What a client sends, byte by byte: how calls open, how messages go out, and how calls end.

use crate::grpc::client::model;
use crate::grpc::client::model::{CallsView, ClientView, ResponseMode};
use crate::grpc::frame;
use crate::grpc::frame::FrameView;
use crate::grpc::headers;
use crate::grpc::headers::RequestHeadView;
use crate::grpc::laws;
use crate::grpc::protocol;
use crate::grpc::status::{Code, StatusView};
use crate::h2::conn;
use crate::h2::conn::answers;
use crate::h2::conn::laws as conn_laws;
use crate::h2::conn::model::ConnView;
use crate::h2::conn::sent;
use crate::h2::error::ConnError;
use crate::h2::frame::ErrorCode;
use crate::h2::hpack::encoder;
use crate::h2::hpack::FieldView;
use crate::h2::server::progress;
use crate::h2::server::requests;
use vstd::prelude::*;

verus! {

/// A message as the bytes of a stream: a byte that says that it is not compressed, its length in
/// four bytes, and the message.
pub open spec fn framed(payload: Seq<u8>) -> Seq<u8> {
    seq![0u8] + answers::word(payload.len() as int) + payload
}

proof fn lemma_framed(payload: Seq<u8>)
    requires
        payload.len() <= u32::MAX,
    ensures
        frame::framed(FrameView { compressed: false, payload }) == framed(payload),
{
    protocol::law_messages_have_their_bytes(payload, false, 0, 2, Seq::empty());
}

/// Whether the DATA frames carry the bytes, and the last of them ends the stream or none does.
pub open spec fn carries(s: Seq<u8>, id: u32, body: Seq<u8>, ends: bool) -> bool {
    if ends {
        progress::carried(s, id) == Some(body)
    } else {
        requests::unended(s, id) == Some(body)
    }
}

proof fn lemma_one(id: u32, payload: Seq<u8>, ends: bool)
    requires
        1 <= id <= 0x7fff_ffff,
        payload.len() <= 0xff_ffff,
    ensures
        carries(
            answers::framed(
                0,
                if ends {
                    1
                } else {
                    0
                },
                id as int,
                payload,
            ),
            id,
            payload,
            ends,
        ),
{
    let none = Seq::<u8>::empty();
    let flags: int = if ends {
        1
    } else {
        0
    };
    let f = answers::framed(0, flags, id as int, payload);
    assert(f + none =~= f);
    if ends {
        progress::lemma_carried(id, true, payload, none);
    } else {
        assert(requests::unended(none, id) == Some(none));
        requests::lemma_unended(id, payload, none);
        assert(payload + none =~= payload);
    }
}

proof fn lemma_more(id: u32, payload: Seq<u8>, more: Seq<u8>, rest: Seq<u8>, ends: bool)
    requires
        1 <= id <= 0x7fff_ffff,
        payload.len() <= 0xff_ffff,
        carries(more, id, rest, ends),
    ensures
        carries(answers::framed(0, 0, id as int, payload) + more, id, payload + rest, ends),
{
    if ends {
        progress::lemma_carried(id, false, payload, more);
    } else {
        requests::lemma_unended(id, payload, more);
    }
}

/// Whether there is room for so many bytes on a stream: its windows, and the bytes that go out.
pub open spec fn finds_room(c: ConnView, id: u32, n: int) -> bool {
    &&& n <= sent::open_for(c, id)
    &&& c.egress.has_room(10 * n)
}

#[verifier::rlimit(60)]
proof fn lemma_continued(
    v: CallsView,
    c: ConnView,
    id: u32,
    bytes: Seq<u8>,
    consumed: nat,
    ends: bool,
)
    requires
        conn::model::conn_inv(c),
        sent::may_send(c, id),
        1 <= id <= 0x7fff_ffff,
        5 <= consumed < bytes.len() <= usize::MAX,
        finds_room(c, id, bytes.len() - consumed),
    ensures
        ({
            let (d, r) = model::continued(v, c, id, bytes, consumed, ends);
            let out = d.egress.bytes.skip(c.egress.bytes.len() as int);
            &&& r == Ok::<nat, ConnError>(bytes.len())
            &&& sent::put(c, d, out)
            &&& carries(out, id, bytes.skip(consumed as int), ends)
            &&& ends ==> sent::has_ended(d, id)
            &&& !ends ==> sent::may_send(d, id)
            &&& conn::model::conn_inv(d)
        }),
    decreases bytes.len() - consumed,
{
    let rest = bytes.skip(consumed as int);
    sent::law_bodies_go_out(c, id, rest, ends);
    let n = sent::least(
        sent::least(rest.len() as int, sent::open_for(c, id)),
        c.peer.max_frame_size as int,
    );
    let (next, r) = conn::model::data_sent(c, id, rest, ends);
    let whole = n == rest.len();
    let flags: int = if ends && whole {
        1
    } else {
        0
    };
    let f = answers::framed(0, flags, id as int, rest.take(n));
    let (d, _) = model::continued(v, c, id, bytes, consumed, ends);
    let out = d.egress.bytes.skip(c.egress.bytes.len() as int);
    assert(model::continued(v, c, id, bytes, consumed, ends) == model::continued(
        v,
        next,
        id,
        bytes,
        (consumed + n) as nat,
        ends,
    ));
    if whole {
        assert(rest.take(n) =~= rest);
        lemma_one(id, rest, ends);
        assert(d == next);
        assert(out =~= f);
    } else {
        lemma_continued(v, next, id, bytes, (consumed + n) as nat, ends);
        let more = d.egress.bytes.skip(next.egress.bytes.len() as int);
        assert(out =~= f + more);
        assert(bytes.skip(consumed + n) =~= rest.skip(n));
        lemma_more(id, rest.take(n), more, rest.skip(n), ends);
        assert(rest.take(n) + rest.skip(n) =~= rest);
        assert(d.egress.outgoing() =~= c.egress.outgoing() + out);
        assert(d.egress.bytes =~= c.egress.bytes + out);
    }
}

#[verifier::rlimit(60)]
proof fn lemma_first(
    v: CallsView,
    c: ConnView,
    id: u32,
    bytes: Seq<u8>,
    ends: bool,
    place: bool,
)
    requires
        conn::model::conn_inv(c),
        sent::may_send(c, id),
        1 <= id <= 0x7fff_ffff,
        5 <= bytes.len() <= usize::MAX,
        finds_room(c, id, bytes.len() as int),
    ensures
        ({
            let (w, d, r) = model::first_sent(v, c, id, bytes, ends, place);
            let out = d.egress.bytes.skip(c.egress.bytes.len() as int);
            &&& r is Ok
            &&& w == (if ends {
                model::closed(v, id)
            } else {
                v
            })
            &&& sent::put(c, d, out)
            &&& carries(out, id, bytes, ends)
            &&& ends ==> sent::has_ended(d, id)
            &&& !ends ==> sent::may_send(d, id)
            &&& conn::model::conn_inv(d)
        }),
{
    sent::law_bodies_go_out(c, id, bytes, ends);
    let n = sent::least(
        sent::least(bytes.len() as int, sent::open_for(c, id)),
        c.peer.max_frame_size as int,
    );
    let (next, r) = conn::model::data_sent(c, id, bytes, ends);
    let whole = n == bytes.len();
    let flags: int = if ends && whole {
        1
    } else {
        0
    };
    let f = answers::framed(0, flags, id as int, bytes.take(n));
    let (w, d, _) = model::first_sent(v, c, id, bytes, ends, place);
    let out = d.egress.bytes.skip(c.egress.bytes.len() as int);
    if whole {
        assert(bytes.take(n) =~= bytes);
        lemma_one(id, bytes, ends);
        assert(d == next);
        assert(out =~= f);
    } else {
        lemma_continued(v, next, id, bytes, n as nat, ends);
        let more = d.egress.bytes.skip(next.egress.bytes.len() as int);
        assert(d == model::continued(v, next, id, bytes, n as nat, ends).0);
        assert(out =~= f + more);
        lemma_more(id, bytes.take(n), more, bytes.skip(n), ends);
        assert(bytes.take(n) + bytes.skip(n) =~= bytes);
        assert(d.egress.outgoing() =~= c.egress.outgoing() + out);
        assert(d.egress.bytes =~= c.egress.bytes + out);
    }
}

/// A message of a call before which none waits goes out at once where there is room: DATA frames
/// carry it behind its length, and the last of them ends the stream if the message is the last one.
/// The call is then closed for more.
#[verifier::rlimit(60)]
pub proof fn law_messages_go_out(
    v: CallsView,
    c: ConnView,
    id: u32,
    payload: Seq<u8>,
    last: bool,
    place: bool,
)
    requires
        conn::model::conn_inv(c),
        sent::may_send(c, id),
        1 <= id <= 0x7fff_ffff,
        v.has(id),
        !v.calls[id].closed,
        v.calls[id].requests.len() == 0,
        payload.len() <= v.max_message,
        payload.len() <= u32::MAX,
        payload.len() + 5 <= usize::MAX,
        finds_room(c, id, 5 + payload.len() as int),
    ensures
        ({
            let (w, d, r) = model::message_sent(v, c, id, payload, last, place);
            let out = d.egress.bytes.skip(c.egress.bytes.len() as int);
            &&& r is Ok
            &&& sent::put(c, d, out)
            &&& carries(out, id, framed(payload), last)
            &&& w.has(id)
            &&& w.calls[id].closed == last
            &&& w.calls[id].requests.len() == 0
            &&& w.calls.remove(id) == v.calls.remove(id)
            &&& last ==> sent::has_ended(d, id)
            &&& !last ==> sent::may_send(d, id)
        }),
{
    lemma_framed(payload);
    lemma_first(v, c, id, framed(payload), last, place);
    let (w, d, r) = model::message_sent(v, c, id, payload, last, place);
    assert(w.calls.remove(id) =~= v.calls.remove(id));
}

/// A message that is too long, one for a call that is not there, and one for a call that is closed
/// are refused, and nothing is sent.
pub proof fn law_bad_messages_are_refused(
    v: CallsView,
    c: ConnView,
    id: u32,
    payload: Seq<u8>,
    last: bool,
    place: bool,
)
    ensures
        ({
            let (w, d, r) = model::message_sent(v, c, id, payload, last, place);
            let short = payload.len() <= v.max_message && payload.len() <= u32::MAX;
            &&& payload.len() > v.max_message ==> r == Err::<(), StatusView>(
                StatusView { code: Code::ResourceExhausted, message: "gRPC message is too large"@ },
            ) && w == v && d == c
            &&& short && !v.has(id) ==> r == Err::<(), StatusView>(
                StatusView { code: Code::Internal, message: "request for unknown gRPC stream"@ },
            ) && w == v && d == c
            &&& short && v.has(id) && v.calls[id].closed ==> r == Err::<(), StatusView>(
                StatusView { code: Code::Internal, message: "request stream is closed"@ },
            ) && w == v && d == c
        }),
{
}

/// Saying that no more follows, where nothing waits, sends an empty DATA frame that ends the
/// stream. To say it again does nothing.
#[verifier::rlimit(60)]
pub proof fn law_ends_go_out(v: CallsView, c: ConnView, id: u32)
    requires
        conn::model::conn_inv(c),
        sent::may_send(c, id),
        1 <= id <= 0x7fff_ffff,
        v.has(id),
        !v.calls[id].closed,
        v.calls[id].requests.len() == 0,
        v.pending.len() == 0,
        c.egress.has_room(9),
    ensures
        ({
            let (w, d, r) = model::finished(v, c, id);
            &&& r is Ok
            &&& sent::put(c, d, answers::framed(0, 1, id as int, Seq::empty()))
            &&& sent::has_ended(d, id)
            &&& w.has(id)
            &&& w.calls[id].closed
            &&& model::finished(w, d, id) == (w, d, Ok::<(), StatusView>(()))
        }),
{
    sent::law_bodies_go_out(c, id, Seq::empty(), true);
    assert(Seq::<u8>::empty().take(0) =~= Seq::<u8>::empty());
    let marked = model::closed(v, id);
    assert(model::flushed(marked, c, 0) == (marked, c));
}

/// Giving a call up resets its stream with the reason that it is cancelled, and the call is gone.
#[verifier::rlimit(60)]
pub proof fn law_given_up_calls_are_cancelled(v: CallsView, c: ConnView, id: u32)
    requires
        conn::model::conn_inv(c),
        c.has_stream(id),
        c.egress.has_room(13),
        v.has(id),
    ensures
        ({
            let (w, d) = model::aborted(v, c, id);
            &&& !w.has(id)
            &&& w.calls == v.calls.remove(id)
            &&& !d.has_stream(id)
            &&& sent::put(c, d, answers::framed(3, 0, id as int, seq![0u8, 0, 0, 8]))
        }),
{
    sent::law_resets_go_out(c, id, ErrorCode::Cancel);
    assert(answers::word(8) =~= seq![0u8, 0, 0, 8]);
}

/// Whether a call can be opened: its fields find room, there is room for another call, and the
/// numbers of the streams are those of a client.
pub open spec fn opens(v: CallsView, c: ConnView, fields: Seq<FieldView>) -> bool {
    &&& conn::model::conn_inv(c)
    &&& c.streams.next_local matches Some(id) && 1 <= id <= 0x7fff_ffff && !v.has(id)
    &&& conn::model::request_started(c, fields, false).1 is Ok
    &&& v.calls.len() < v.capacity
}

/// A call opens a stream with a block of fields that the server reads as the path, the authority
/// and the metadata of the call, and that does not end the stream. The call waits for its answer.
#[verifier::rlimit(60)]
pub proof fn law_calls_open(
    v: CallsView,
    c: ConnView,
    path: Seq<u8>,
    authority: Option<Seq<u8>>,
    metadata: Seq<FieldView>,
    fields: Seq<FieldView>,
    mode: ResponseMode,
)
    requires
        laws::names_are_good(metadata),
        headers::request_fields(path, authority, metadata) == Ok::<Seq<FieldView>, StatusView>(
            fields,
        ),
        opens(v, c, fields),
    ensures
        headers::request_head(fields) == Ok::<RequestHeadView, StatusView>(
            RequestHeadView { path, authority, metadata },
        ),
        ({
            let (w, d, r) = model::started(v, c, path, authority, metadata, mode);
            let head = d.egress.bytes.skip(c.egress.bytes.len() as int);
            &&& r matches Ok(id) && {
                &&& c.streams.next_local == Some(id)
                &&& sent::put(c, d, head)
                &&& conn_laws::gathered(head, id, true) == Some(
                    encoder::block_wire(c.egress.encoder, fields),
                )
                &&& head[4] % 2 == 0
                &&& sent::may_send(d, id)
                &&& w.has(id)
                &&& w.calls[id].mode == mode
                &&& !w.calls[id].closed
                &&& w.calls[id].requests.len() == 0
                &&& w.calls[id].message is None
                &&& w.calls.remove(id) == v.calls
            }
        }),
{
    laws::law_requests_are_read_back(path, authority, metadata);
    sent::law_requests_go_out(c, fields, false);
    let (w, d, r) = model::started(v, c, path, authority, metadata, mode);
    let id = c.streams.next_local->0;
    assert(w.calls.remove(id) =~= v.calls);
}

/// A call that finds no room for another is refused: the stream that was opened for it is reset,
/// and no call is kept.
#[verifier::rlimit(60)]
pub proof fn law_calls_without_room_are_refused(
    v: CallsView,
    c: ConnView,
    path: Seq<u8>,
    authority: Option<Seq<u8>>,
    metadata: Seq<FieldView>,
    fields: Seq<FieldView>,
    mode: ResponseMode,
)
    requires
        conn::model::conn_inv(c),
        c.streams.next_local matches Some(id) && 1 <= id <= 0x7fff_ffff,
        headers::request_fields(path, authority, metadata) == Ok::<Seq<FieldView>, StatusView>(
            fields,
        ),
        conn::model::request_started(c, fields, false).1 is Ok,
        conn::model::request_started(c, fields, false).0.egress.has_room(13),
        v.calls.len() >= v.capacity,
    ensures
        ({
            let (w, d, r) = model::started(v, c, path, authority, metadata, mode);
            let id = c.streams.next_local->0;
            let mid = conn::model::request_started(c, fields, false).0;
            &&& r == Err::<u32, StatusView>(
                StatusView { code: Code::ResourceExhausted, message: "too many in-flight streams"@ },
            )
            &&& w == v
            &&& !d.has_stream(id)
            &&& sent::put(mid, d, answers::framed(3, 0, id as int, seq![0u8, 0, 0, 7]))
        }),
{
    sent::law_requests_go_out(c, fields, false);
    let mid = conn::model::request_started(c, fields, false).0;
    let id = c.streams.next_local->0;
    sent::law_resets_go_out(mid, id, ErrorCode::RefusedStream);
    assert(answers::word(7) =~= seq![0u8, 0, 0, 7]);
}

/// A call with one message reaches the server: a block of fields that is read as its path, its
/// authority and its metadata, and DATA frames that carry the message behind its length, the last
/// of which ends the stream.
#[verifier::rlimit(60)]
pub proof fn law_unary_calls_go_out(
    v: CallsView,
    c: ConnView,
    path: Seq<u8>,
    authority: Option<Seq<u8>>,
    metadata: Seq<FieldView>,
    fields: Seq<FieldView>,
    payload: Seq<u8>,
    place: bool,
) -> (parts: (Seq<u8>, Seq<u8>))
    requires
        laws::names_are_good(metadata),
        headers::request_fields(path, authority, metadata) == Ok::<Seq<FieldView>, StatusView>(
            fields,
        ),
        opens(v, c, fields),
        payload.len() <= v.max_message,
        payload.len() <= u32::MAX,
        payload.len() + 5 <= usize::MAX,
        payload.len() + 5 <= c.peer.initial_window_size,
        payload.len() + 5 <= c.send_window.value,
        conn::model::request_started(c, fields, false).0.egress.has_room(
            10 * (5 + payload.len() as int),
        ),
    ensures
        headers::request_head(fields) == Ok::<RequestHeadView, StatusView>(
            RequestHeadView { path, authority, metadata },
        ),
        ({
            let (w, d, r) = model::unary_started(v, c, path, authority, metadata, payload, place);
            &&& r matches Ok(id) && {
                &&& sent::put(c, d, parts.0 + parts.1)
                &&& conn_laws::gathered(parts.0, id, true) == Some(
                    encoder::block_wire(c.egress.encoder, fields),
                )
                &&& parts.0[4] % 2 == 0
                &&& progress::carried(parts.1, id) == Some(framed(payload))
                &&& sent::has_ended(d, id)
                &&& w.has(id)
                &&& w.calls[id].mode == ResponseMode::Unary
                &&& w.calls[id].closed
                &&& w.calls.remove(id) == v.calls
            }
        }),
{
    law_calls_open(v, c, path, authority, metadata, fields, ResponseMode::Unary);
    sent::law_requests_go_out(c, fields, false);
    let (calls, mid, _) = model::started(
        v,
        c,
        path,
        authority,
        metadata,
        ResponseMode::Unary,
    );
    let id = c.streams.next_local->0;
    law_messages_go_out(calls, mid, id, payload, true, place);
    let (w, d, r) = model::unary_started(v, c, path, authority, metadata, payload, place);
    let head = mid.egress.bytes.skip(c.egress.bytes.len() as int);
    let body = d.egress.bytes.skip(mid.egress.bytes.len() as int);
    assert(d.egress.bytes =~= c.egress.bytes + (head + body));
    assert(d.egress.outgoing() =~= c.egress.outgoing() + (head + body));
    (head, body)
}

/// The answer to a unary call is one message: a second one is a failure.
pub proof fn law_one_message_answers_a_unary_call(v: ClientView, id: u32, m: FrameView)
    requires
        v.calls.has(id),
        v.calls.calls[id].mode == ResponseMode::Unary,
        v.calls.calls[id].buffered_len + m.payload.len() <= v.inbox.max_len,
        v.calls.calls[id].message_count < v.inbox.max_msgs,
    ensures
        ({
            let (w, r) = model::message_taken(v, id, m);
            &&& v.calls.calls[id].message is None ==> r is Ok && w.calls.calls[id].message == Some(
                m,
            )
            &&& v.calls.calls[id].message is Some ==> r == Err::<(), StatusView>(
                StatusView {
                    code: Code::Internal,
                    message: "unary response has multiple messages"@,
                },
            )
            &&& w.calls.calls[id].message_count == v.calls.calls[id].message_count + 1
            &&& w.calls.calls[id].buffered_len == v.calls.calls[id].buffered_len
                + m.payload.len()
            &&& w.conn == v.conn
            &&& w.inbox == v.inbox
        }),
{
}

/// An answer of more messages or of more bytes than are taken is a failure.
pub proof fn law_long_answers_are_refused(v: ClientView, id: u32, m: FrameView)
    requires
        v.calls.has(id),
        v.calls.calls[id].buffered_len + m.payload.len() <= usize::MAX,
        v.calls.calls[id].buffered_len + m.payload.len() > v.inbox.max_len
            || v.calls.calls[id].message_count >= v.inbox.max_msgs,
    ensures
        model::message_taken(v, id, m).1 == Err::<(), StatusView>(
            StatusView { code: Code::ResourceExhausted, message: "stream buffer limit exceeded"@ },
        ),
        model::message_taken(v, id, m).0.inbox == v.inbox,
{
}

} // verus!
