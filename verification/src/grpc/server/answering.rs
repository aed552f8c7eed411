//! What handlers answer and how it is passed on, and what a server starts with.

use crate::bytes;
use crate::collections::PoolFault;
use crate::grpc::frame;
use crate::grpc::server::adapters;
use crate::grpc::server::adapters::{Unary, UnaryHandler};
use crate::grpc::server::app;
use crate::grpc::server::delivery;
use crate::grpc::server::limits;
use crate::grpc::server::limits::Limits;
use crate::grpc::server::liveness;
use crate::grpc::server::reply;
use crate::grpc::server::reply::{
    LiveResponse, ReplyView, Request, Response, ResponseView, StreamingResponse, UnaryResponse,
};
use crate::grpc::status::{Code, StatusView};
use crate::h2::config::ConfigError;
use crate::h2::conn::answers;
use crate::h2::ingress;
use crate::h2::wire;
use vstd::prelude::*;

verus! {

/// The answer of a handler with one message is passed on as it is: its metadata, the message as
/// the codec writes it behind those that were there, its trailers and its status. Where the codec
/// fails, no message is added and the status is the failure.
pub proof fn law_unary_answers_are_passed_on<T>(
    response: ResponseView,
    r: UnaryResponse<T>,
    payload: Seq<u8>,
    failure: StatusView,
)
    ensures
        r.message is Some ==> adapters::unary_answer(response, r, Ok(payload)) == (ResponseView {
            metadata: r.metadata@,
            messages: response.messages.push(payload),
            trailers: r.trailers@,
            status: r.status@,
        }),
        r.message is Some ==> adapters::unary_answer(response, r, Err(failure)) == (ResponseView {
            metadata: r.metadata@,
            messages: response.messages,
            trailers: r.trailers@,
            status: failure,
        }),
        r.message is None ==> adapters::unary_answer(response, r, Ok(payload)) == (ResponseView {
            metadata: r.metadata@,
            messages: response.messages,
            trailers: r.trailers@,
            status: r.status@,
        }),
{
}

/// What was written of messages, of which none failed.
pub open spec fn written(payloads: Seq<Seq<u8>>) -> Seq<Result<Seq<u8>, StatusView>> {
    payloads.map_values(|p: Seq<u8>| Ok::<Seq<u8>, StatusView>(p))
}

proof fn lemma_collected(payloads: Seq<Seq<u8>>)
    ensures
        reply::collected(written(payloads)) == Ok::<Seq<Seq<u8>>, StatusView>(payloads),
    decreases payloads.len(),
{
    let all = written(payloads);
    if payloads.len() == 0 {
        assert(payloads =~= Seq::<Seq<u8>>::empty());
    } else {
        lemma_collected(payloads.drop_last());
        assert(all.drop_last() =~= written(payloads.drop_last()));
        assert(payloads.drop_last().push(payloads.last()) =~= payloads);
    }
}

/// All messages that a codec has written are passed on, in order. After a failure none is, and the
/// status is the failure.
pub proof fn law_streamed_answers_are_passed_on<T>(
    response: ResponseView,
    r: StreamingResponse<T>,
    payloads: Seq<Seq<u8>>,
    failure: StatusView,
)
    ensures
        adapters::streaming_answer(response, r, written(payloads)) == (ResponseView {
            metadata: r.metadata@,
            messages: response.messages + payloads,
            trailers: r.trailers@,
            status: r.status@,
        }),
        adapters::streaming_answer(response, r, written(payloads).push(Err(failure))) == (
        ResponseView {
            metadata: r.metadata@,
            messages: Seq::empty(),
            trailers: r.trailers@,
            status: failure,
        }),
{
    lemma_collected(payloads);
    let failed = written(payloads).push(Err(failure));
    assert(failed.drop_last() =~= written(payloads));
}

/// So it is with what is said of a call that is served as it comes: all messages are passed on,
/// in order, with the metadata, the trailers and the status that were given.
pub proof fn law_live_answers_are_passed_on<T>(
    had: ReplyView,
    r: LiveResponse<T>,
    payloads: Seq<Seq<u8>>,
    failure: StatusView,
)
    ensures
        reply::applied(had, r, written(payloads)) == (ReplyView {
            metadata: r.metadata@,
            messages: had.messages + payloads,
            trailers: r.trailers@,
            status: match r.status {
                Some(s) => Some(s@),
                None => None,
            },
        }),
        reply::applied(had, r, written(payloads).push(Err(failure))) == (ReplyView {
            metadata: r.metadata@,
            messages: Seq::empty(),
            trailers: r.trailers@,
            status: Some(failure),
        }),
{
    lemma_collected(payloads);
    let failed = written(payloads).push(Err(failure));
    assert(failed.drop_last() =~= written(payloads));
}

/// A unary request has one message: with none or with several its handler is not asked, and the
/// answer says so.
pub proof fn law_unary_requests_have_one_message<H: UnaryHandler<C>, C>(
    before: Unary<H, C>,
    context: C,
    request: Request,
    response: Response,
    after: Unary<H, C>,
    left: C,
    given: Response,
)
    requires
        request.messages@.len() != 1,
        Unary::<H, C>::answered(before, context, request, response, after, left, given),
    ensures
        after == before,
        left == context,
        given@.status == (StatusView {
            code: Code::InvalidArgument,
            message: "unary request needs one message"@,
        }),
        given@.messages == response@.messages,
{
}

/// Messages are written one behind the other, each behind its length; one that is too long for
/// that is a failure.
pub proof fn law_bodies_have_their_bytes(messages: Seq<Seq<u8>>)
    requires
        delivery::short(messages),
    ensures
        reply::body(messages).0 == delivery::joined(messages),
        reply::body(messages).1 is Ok,
    decreases messages.len(),
{
    if messages.len() > 0 {
        let rest = messages.drop_first();
        assert forall|i: int| 0 <= i < rest.len() implies (#[trigger] rest[i]).len()
            <= u32::MAX by {
            assert(rest[i] == messages[i + 1]);
        }
        law_bodies_have_their_bytes(rest);
        let n = messages[0].len() as u32;
        assert(bytes::wire32(n) =~= answers::word(n as int));
        assert(frame::framed(reply::plain(messages[0])) =~= seq![0u8] + answers::word(n as int)
            + messages[0]);
    }
}

/// The limits that nothing was said about, and what limits need: room for a call and for an answer
/// that waits, and no more than can be numbered.
pub proof fn law_limits_are_checked(l: Limits)
    ensures
        limits::default_limits() == (Limits {
            max_in_flight: 256,
            max_message_len: 4194304,
            max_fragmented_messages: 4,
            max_buffered_len: 16777216,
            max_buffered_msgs: 8192,
            max_conn_buffered_len: 67108864,
            max_pending_replies: 8192,
            max_pending_len: 67108864,
        }),
        l.max_in_flight == 0 ==> limits::limits_fault(l) == Some(
            ConfigError::ZeroCapacity("max_in_flight"),
        ),
        l.max_in_flight > 0 && l.max_pending_replies == 0 ==> limits::limits_fault(l) == Some(
            ConfigError::ZeroCapacity("max_pending_replies"),
        ),
        l.max_in_flight > u32::MAX && l.max_pending_replies > 0 ==> limits::limits_fault(l) == Some(
            ConfigError::StreamCapacityOverflow,
        ),
        0 < l.max_in_flight <= u32::MAX && (l.max_pending_replies >= u32::MAX
            || l.max_buffered_msgs >= u32::MAX) && l.max_pending_replies > 0
            ==> limits::limits_fault(l) == Some(ConfigError::Pool(PoolFault::SlotOverflow)),
        limits::connection_config(l).stream_capacity == l.max_in_flight,
{
}

/// A server starts with no calls and with the room that its limits give it.
pub proof fn law_servers_begin(l: Limits)
    ensures
        ({
            let v = app::initial(l);
            &&& v.calls.calls =~= Map::empty()
            &&& v.calls.capacity == l.max_in_flight
            &&& v.calls.queue.len() == 0
            &&& v.calls.queue_capacity == l.max_in_flight
            &&& v.calls.pending_len == 0
            &&& v.calls.pending_capacity == l.max_pending_len
            &&& v.calls.messages.limit == l.max_buffered_msgs
            &&& v.calls.replies.limit == l.max_pending_replies
            &&& v.calls.buffered == 0
            &&& v.routes.routes =~= Map::empty()
            &&& v.routes.capacity == l.max_in_flight
            &&& v.fragments.limit == l.max_fragmented_messages
            &&& v.fragments.out == 0
            &&& v.conn.streams.next_local == Some(2u32)
            &&& !v.conn.ingress.preface_done
        }),
{
}

/// A plain request is one whose first bytes are not those of the preface, as far as they go; the
/// answer to it is fixed.
pub proof fn law_plain_requests_are_told_apart(first: Seq<u8>, i: int)
    ensures
        0 <= i < first.len() && i < 24 && first[i] != ingress::preface()[i]
            ==> !liveness::may_be_preface(first),
        (forall|k: int|
            0 <= k < first.len() && k < 24 ==> #[trigger] first[k] == ingress::preface()[k])
            ==> liveness::may_be_preface(first),
        liveness::response() == bytes::text(
            "HTTP/1.1 200 OK\r\ncontent-length: 0\r\nconnection: close\r\n\r\n",
        ),
{
    wire::law_the_preface_is_fixed();
    let preface = ingress::preface();
    let n = if first.len() < preface.len() {
        first.len() as int
    } else {
        preface.len() as int
    };
    let a = first.take(n);
    let b = preface.take(n);
    if 0 <= i < first.len() && i < 24 && first[i] != preface[i] {
        assert(a[i] == first[i] && b[i] == preface[i]);
    }
    if forall|k: int| 0 <= k < first.len() && k < 24 ==> #[trigger] first[k] == preface[k] {
        assert forall|k: int| 0 <= k < n implies a[k] == b[k] by {
            assert(first[k] == preface[k]);
        }
        assert(a =~= b);
    }
}

} // verus!
