//! How calls come to their answers and to their ends, as the owner of a client sees it.

use crate::grpc::client::model;
use crate::grpc::client::model::{ClientView, InboxView, PieceView, ResponseMode, UnaryView};
use crate::grpc::headers;
use crate::grpc::status::{Code, StatusView};
use crate::h2::conn;
use crate::h2::conn::answers;
use crate::h2::conn::sent;
use crate::h2::event::EventView;
use crate::h2::frame::ErrorCode;
use crate::h2::hpack::FieldView;
use vstd::prelude::*;

verus! {

/// Whether there is room for the end of a call.
pub open spec fn has_room(v: ClientView, id: u32) -> bool {
    match v.calls.calls[id].mode {
        ResponseMode::Unary => v.inbox.complete.len() < v.inbox.complete_capacity,
        ResponseMode::Streaming => v.inbox.events.len() < v.inbox.event_capacity,
    }
}

/// Whether a call has ended with a status and trailers: the owner finds it as the last whole
/// answer, with what has come of it before, or as the last piece; the call is gone, and nothing
/// else has changed for the owner.
pub open spec fn has_ended(
    v: ClientView,
    w: ClientView,
    id: u32,
    s: StatusView,
    trailers: Seq<FieldView>,
) -> bool {
    let call = v.calls.calls[id];
    &&& !w.calls.has(id)
    &&& w.calls.calls == v.calls.calls.remove(id)
    &&& match call.mode {
        ResponseMode::Unary => w.inbox == (InboxView {
            complete: v.inbox.complete.push(
                UnaryView {
                    stream: id,
                    metadata: call.metadata,
                    message: call.message,
                    trailers,
                    status: s,
                },
            ),
            ..v.inbox
        }),
        ResponseMode::Streaming => w.inbox == (InboxView {
            events: v.inbox.events.push(
                PieceView::Trailers { stream: id, metadata: trailers, status: s },
            ),
            ..v.inbox
        }),
    }
}

/// A call whose stream the peer resets has failed: it is handed on with a status that is not OK.
/// The code is Cancelled where the peer cancels the stream, Unavailable where it refuses it, and
/// Internal for every other reason; there are no trailers.
#[verifier::rlimit(60)]
pub proof fn law_reset_calls_have_failed(v: ClientView, id: u32, error: ErrorCode, place: bool) -> (s:
    StatusView)
    requires
        v.calls.has(id),
        has_room(v, id),
    ensures
        ({
            let (w, r) = model::event_taken(v, EventView::StreamReset { stream: id, error }, place);
            &&& r is Ok
            &&& has_ended(v, w, id, s, Seq::empty())
            &&& w.conn == v.conn
        }),
        s.code != Code::Okay,
        error is Cancel ==> s.code == Code::Cancelled && s.message == "HTTP/2 stream cancelled"@,
        error is RefusedStream ==> s.code == Code::Unavailable && s.message
            == "HTTP/2 stream refused"@,
        !(error is Cancel) && !(error is RefusedStream) ==> s.code == Code::Internal,
{
    reveal(model::event_taken);
    let w = model::event_taken(v, EventView::StreamReset { stream: id, error }, place).0;
    match v.calls.calls[id].mode {
        ResponseMode::Unary => w.inbox.complete.last().status,
        ResponseMode::Streaming => w.inbox.events.last()->status,
    }
}

/// The fields at the end of an answer end the call, with the status and the trailers that they
/// say; an end that the stream does not end with is a failure besides.
#[verifier::rlimit(60)]
pub proof fn law_calls_end_as_they_are_told(
    v: ClientView,
    id: u32,
    fields: Seq<FieldView>,
    end_stream: bool,
    s: StatusView,
    trailers: Seq<FieldView>,
    place: bool,
)
    requires
        v.calls.has(id),
        has_room(v, id),
        headers::response_trailers(fields) == Ok::<(StatusView, Seq<FieldView>), StatusView>(
            (s, trailers),
        ),
    ensures
        ({
            let (w, r) = model::event_taken(
                v,
                EventView::Headers { stream: id, fields, end_stream, trailing: true },
                place,
            );
            &&& has_ended(v, w, id, s, trailers)
            &&& w.conn == v.conn
            &&& end_stream <==> r is Ok
            &&& r matches Err(failure) ==> failure.code == Code::Internal
        }),
{
    reveal(model::event_taken);
}

/// Fields that say no status end no call: the failure is told.
#[verifier::rlimit(60)]
pub proof fn law_bad_ends_are_told(
    v: ClientView,
    id: u32,
    fields: Seq<FieldView>,
    end_stream: bool,
    place: bool,
)
    requires
        headers::response_trailers(fields) is Err,
    ensures
        model::event_taken(
            v,
            EventView::Headers { stream: id, fields, end_stream, trailing: true },
            place,
        ) == (v, Err::<(), StatusView>(headers::response_trailers(fields)->Err_0)),
{
    reveal(model::event_taken);
}

/// The start of an answer: of a call whose answer is handed on piece by piece it is the next
/// piece, of any other it is kept for the whole.
#[verifier::rlimit(60)]
pub proof fn law_answers_begin(
    v: ClientView,
    id: u32,
    fields: Seq<FieldView>,
    metadata: Seq<FieldView>,
    place: bool,
)
    requires
        v.calls.has(id),
        headers::response_head(fields) == Ok::<Seq<FieldView>, StatusView>(metadata),
    ensures
        ({
            let (w, r) = model::event_taken(
                v,
                EventView::Headers { stream: id, fields, end_stream: false, trailing: false },
                place,
            );
            &&& v.calls.calls[id].mode == ResponseMode::Unary ==> r is Ok && w.calls.has(id)
                && w.calls.calls[id].metadata == metadata && w.calls.calls[id].message
                == v.calls.calls[id].message && w.inbox == v.inbox
            &&& v.calls.calls[id].mode == ResponseMode::Streaming && v.inbox.events.len()
                < v.inbox.event_capacity ==> r is Ok && w.calls == v.calls && w.inbox.events
                == v.inbox.events.push(PieceView::Headers { stream: id, metadata })
            &&& w.conn == v.conn
        }),
{
    reveal(model::event_taken);
}

/// An answer of fields alone: they open the answer and end it, with the status that they say.
#[verifier::rlimit(60)]
pub proof fn law_answers_of_fields_alone_end(
    v: ClientView,
    id: u32,
    fields: Seq<FieldView>,
    metadata: Seq<FieldView>,
    s: StatusView,
    trailers: Seq<FieldView>,
    place: bool,
)
    requires
        v.calls.has(id),
        headers::response_head(fields) == Ok::<Seq<FieldView>, StatusView>(metadata),
        headers::response_trailers(fields) == Ok::<(StatusView, Seq<FieldView>), StatusView>(
            (s, trailers),
        ),
        v.inbox.complete.len() < v.inbox.complete_capacity,
        v.inbox.events.len() + 1 < v.inbox.event_capacity,
    ensures
        ({
            let (w, r) = model::event_taken(
                v,
                EventView::Headers { stream: id, fields, end_stream: true, trailing: false },
                place,
            );
            &&& r is Ok
            &&& !w.calls.has(id)
            &&& v.calls.calls[id].mode == ResponseMode::Unary ==> w.inbox.complete
                == v.inbox.complete.push(
                UnaryView {
                    stream: id,
                    metadata,
                    message: v.calls.calls[id].message,
                    trailers,
                    status: s,
                },
            )
            &&& v.calls.calls[id].mode == ResponseMode::Streaming ==> w.inbox.events
                == v.inbox.events.push(PieceView::Headers { stream: id, metadata }).push(
                PieceView::Trailers { stream: id, metadata: trailers, status: s },
            )
        }),
{
    reveal(model::event_taken);
}

/// An answer whose data ends the stream has no status: the call is given up, the peer is told so
/// with RST_STREAM, and the failure is told.
#[verifier::rlimit(60)]
pub proof fn law_answers_without_an_end_fail(v: ClientView, id: u32, place: bool)
    requires
        v.calls.has(id),
        conn::model::conn_inv(v.conn),
        v.conn.has_stream(id),
        v.conn.egress.has_room(13),
    ensures
        ({
            let (w, r) = model::event_taken(
                v,
                EventView::Data { stream: id, data: Seq::empty(), end_stream: true },
                place,
            );
            &&& r matches Err(failure) && failure.code == Code::Internal
            &&& !w.calls.has(id)
            &&& w.inbox == v.inbox
            &&& sent::put(v.conn, w.conn, answers::framed(3, 0, id as int, seq![0u8, 0, 0, 8]))
            &&& !w.conn.has_stream(id)
        }),
{
    reveal(model::event_taken);
    sent::law_resets_go_out(v.conn, id, ErrorCode::Cancel);
    assert(answers::word(8) =~= seq![0u8, 0, 0, 8]);
}

/// What comes for a call that is not there is a failure, and changes nothing.
#[verifier::rlimit(60)]
pub proof fn law_unknown_calls_are_told(
    v: ClientView,
    id: u32,
    error: ErrorCode,
    data: Seq<u8>,
    place: bool,
)
    requires
        !v.calls.has(id),
        data.len() > 0,
    ensures
        model::event_taken(v, EventView::StreamReset { stream: id, error }, place).1 is Err,
        model::event_taken(v, EventView::StreamReset { stream: id, error }, place).0 == v,
        model::event_taken(
            v,
            EventView::Data { stream: id, data, end_stream: false },
            place,
        ).1 is Err,
        model::event_taken(
            v,
            EventView::Data { stream: id, data, end_stream: false },
            place,
        ).0 == v,
{
    reveal(model::event_taken);
}

} // verus!
