//! What holds of a client as a whole.

use crate::collections;
use crate::grpc::client::model;
use crate::grpc::client::model::{
    CallView, CallsView, ClientView, InboxView, PendingView, PieceView, ResponseMode, UnaryView,
};
use crate::grpc::frame;
use crate::grpc::frame::{FrameError, FrameView};
use crate::grpc::headers;
use crate::grpc::laws;
use crate::h2::conn::sending;
use crate::h2::conn::sending::Act;
use crate::grpc::status::StatusView;
use crate::h2::conn;
use crate::h2::conn::model::ConnView;
use crate::h2::error::ConnError;
use crate::h2::event::EventView;
use crate::h2::hpack::FieldView;
use vstd::prelude::*;

verus! {

/// The bytes of messages that are still to be sent.
pub open spec fn waiting(requests: Seq<PendingView>) -> Seq<u8>
    decreases requests.len(),
{
    if requests.len() == 0 {
        Seq::empty()
    } else {
        requests[0].bytes.skip(requests[0].pos as int) + waiting(requests.drop_first())
    }
}

/// Whether no more of a message was sent than there is of it.
pub open spec fn in_range(requests: Seq<PendingView>) -> bool {
    forall|i: int| 0 <= i < requests.len() ==> (#[trigger] requests[i]).pos <= requests[i].bytes.len()
}

/// Whether no more of any message was sent than there is of it.
pub open spec fn all_in_range(v: CallsView) -> bool {
    forall|id: u32| #[trigger] v.has(id) ==> in_range(v.calls[id].requests)
}

proof fn lemma_request(c: ConnView, id: u32, p: PendingView) -> (acts: Seq<Act>)
    requires
        p.pos <= p.bytes.len(),
    ensures
        sending::performed(c, acts) == model::request_driven(c, id, p).0,
        forall|other: u32|
            other != id ==> #[trigger] sending::body_sent(c, acts, other) == Seq::<u8>::empty(),
        ({
            let (_, left, done) = model::request_driven(c, id, p);
            &&& left.pos <= left.bytes.len()
            &&& left.bytes == p.bytes
            &&& left.end_stream == p.end_stream
            &&& done == Ok::<bool, ConnError>(true) ==> left.pos == left.bytes.len()
            &&& sending::body_sent(c, acts, id) + left.bytes.skip(left.pos as int)
                == p.bytes.skip(p.pos as int)
        }),
    decreases p.bytes.len() - p.pos,
{
    if p.pos >= p.bytes.len() {
        assert(Seq::<u8>::empty() + p.bytes.skip(p.pos as int) =~= p.bytes.skip(p.pos as int));
        Seq::empty()
    } else {
        conn::model::lemma_sending_keeps_ingress(c, id);
        let rest = p.bytes.skip(p.pos as int);
        let a = Act::Data { stream: id, bytes: rest, end_stream: p.end_stream };
        let (next, out) = conn::model::data_sent(c, id, rest, p.end_stream);
        sending::lemma_first(c, a, Seq::empty());
        assert forall|other: u32|
            sending::carried(c, a, other) + Seq::<u8>::empty() == sending::carried(
                c,
                a,
                other,
            ) by {
            assert(sending::carried(c, a, other) + Seq::<u8>::empty() =~= sending::carried(
                c,
                a,
                other,
            ));
        }
        match out {
            Err(_) => {
                assert(Seq::<u8>::empty() + rest =~= rest);
                seq![a] + Seq::empty()
            },
            Ok(n) => {
                if n == 0 {
                    assert(rest.take(0) + rest =~= rest);
                    assert(rest.take(0) =~= Seq::<u8>::empty());
                    seq![a] + Seq::empty()
                } else {
                    let moved = PendingView { pos: (p.pos + n) as nat, ..p };
                    let more = lemma_request(next, id, moved);
                    sending::lemma_first(c, a, more);
                    let left = model::request_driven(c, id, p).1;
                    assert(rest.take(n as int) + moved.bytes.skip(moved.pos as int) =~= rest);
                    assert((rest.take(n as int) + sending::body_sent(next, more, id))
                        + left.bytes.skip(left.pos as int) =~= rest.take(n as int) + (
                    sending::body_sent(next, more, id) + left.bytes.skip(left.pos as int)));
                    assert forall|other: u32| other != id implies #[trigger] sending::body_sent(
                        c,
                        seq![a] + more,
                        other,
                    ) == Seq::<u8>::empty() by {
                        assert(sending::body_sent(next, more, other) == Seq::<u8>::empty());
                        assert(Seq::<u8>::empty() + Seq::<u8>::empty() =~= Seq::<u8>::empty());
                    }
                    seq![a] + more
                }
            },
        }
    }
}

proof fn lemma_waiting_first(requests: Seq<PendingView>, p: PendingView)
    requires
        requests.len() > 0,
    ensures
        waiting(requests.update(0, p)) == p.bytes.skip(p.pos as int) + waiting(
            requests.drop_first(),
        ),
{
    assert(requests.update(0, p).drop_first() =~= requests.drop_first());
}

/// The messages of a call are sent in order: what was sent of them and what is left make up
/// the whole.
pub proof fn law_messages_are_sent_in_order(c: ConnView, id: u32, requests: Seq<PendingView>) -> (acts:
    Seq<Act>)
    requires
        in_range(requests),
    ensures
        sending::performed(c, acts) == model::call_driven(c, id, requests).0,
        forall|other: u32|
            other != id ==> #[trigger] sending::body_sent(c, acts, other) == Seq::<u8>::empty(),
        ({
            let (_, left, done) = model::call_driven(c, id, requests);
            &&& in_range(left)
            &&& done == Ok::<bool, ConnError>(true) ==> left.len() == 0
            &&& sending::body_sent(c, acts, id) + waiting(left) == waiting(requests)
        }),
    decreases requests.len(),
{
    if requests.len() == 0 {
        assert(Seq::<u8>::empty() + waiting(requests) =~= waiting(requests));
        Seq::empty()
    } else {
        let p = requests[0];
        let rest = requests.drop_first();
        let acts = lemma_request(c, id, p);
        let (next, left, done) = model::request_driven(c, id, p);
        let sent = sending::body_sent(c, acts, id);
        lemma_waiting_first(requests, left);
        match done {
            Ok(true) => {
                assert(in_range(rest)) by {
                    assert forall|i: int| 0 <= i < rest.len() implies (#[trigger] rest[i]).pos
                        <= rest[i].bytes.len() by {
                        assert(rest[i] == requests[i + 1]);
                    }
                }
                let more = law_messages_are_sent_in_order(next, id, rest);
                sending::lemma_after(c, acts, more);
                let later = sending::body_sent(next, more, id);
                let after = waiting(model::call_driven(next, id, rest).1);
                assert(left.bytes.skip(left.pos as int) =~= Seq::<u8>::empty());
                assert(sent + Seq::<u8>::empty() =~= sent);
                assert((sent + later) + after =~= sent + (later + after));
                assert forall|other: u32| other != id implies #[trigger] sending::body_sent(
                    c,
                    acts + more,
                    other,
                ) == Seq::<u8>::empty() by {
                    assert(sending::body_sent(c, acts, other) == Seq::<u8>::empty());
                    assert(sending::body_sent(next, more, other) == Seq::<u8>::empty());
                    assert(Seq::<u8>::empty() + Seq::<u8>::empty() =~= Seq::<u8>::empty());
                }
                acts + more
            },
            _ => {
                assert((sent + left.bytes.skip(left.pos as int)) + waiting(rest) =~= sent + (
                left.bytes.skip(left.pos as int) + waiting(rest)));
                acts
            },
        }
    }
}

/// Whether of every call that is left, what was sent and what waits make up what waited.
pub open spec fn conserved(v: CallsView, c: ConnView, acts: Seq<Act>, w: CallsView) -> bool {
    forall|id: u32| #[trigger]
        w.has(id) ==> v.has(id) && sending::body_sent(c, acts, id) + waiting(w.calls[id].requests)
            == waiting(v.calls[id].requests)
}

proof fn lemma_nothing_sent(v: CallsView, c: ConnView)
    ensures
        conserved(v, c, Seq::empty(), v),
{
    assert forall|id: u32| #[trigger] v.has(id) implies sending::body_sent(c, Seq::empty(), id)
        + waiting(v.calls[id].requests) == waiting(v.calls[id].requests) by {
        assert(Seq::<u8>::empty() + waiting(v.calls[id].requests) =~= waiting(
            v.calls[id].requests,
        ));
    }
}

proof fn lemma_turn(v: CallsView, c: ConnView) -> (acts: Seq<Act>)
    requires
        v.pending.len() > 0,
        all_in_range(v),
    ensures
        sending::performed(c, acts) == model::turn(v, c).1,
        conserved(v, c, acts, model::turn(v, c).0),
        all_in_range(model::turn(v, c).0),
{
    let id = v.pending[0];
    let w = model::turn(v, c).0;
    if !v.has(id) {
        lemma_nothing_sent(v, c);
        assert forall|x: u32| #[trigger] w.has(x) implies v.has(x) by {}
        Seq::empty()
    } else {
        let acts = law_messages_are_sent_in_order(c, id, v.calls[id].requests);
        assert forall|x: u32| #[trigger] w.has(x) implies v.has(x) && sending::body_sent(c, acts, x)
            + waiting(w.calls[x].requests) == waiting(v.calls[x].requests) && in_range(
            w.calls[x].requests,
        ) by {
            if x != id {
                assert(v.has(x));
                assert(Seq::<u8>::empty() + waiting(v.calls[x].requests) =~= waiting(
                    v.calls[x].requests,
                ));
            }
        }
        acts
    }
}

proof fn lemma_conserved_on(
    v: CallsView,
    c: ConnView,
    acts: Seq<Act>,
    mid: CallsView,
    more: Seq<Act>,
    w: CallsView,
)
    requires
        conserved(v, c, acts, mid),
        conserved(mid, sending::performed(c, acts), more, w),
    ensures
        conserved(v, c, acts + more, w),
{
    sending::lemma_after(c, acts, more);
    assert forall|id: u32| #[trigger] w.has(id) implies v.has(id) && sending::body_sent(
        c,
        acts + more,
        id,
    ) + waiting(w.calls[id].requests) == waiting(v.calls[id].requests) by {
        assert(mid.has(id));
        let a = sending::body_sent(c, acts, id);
        let b = sending::body_sent(sending::performed(c, acts), more, id);
        assert((a + b) + waiting(w.calls[id].requests) =~= a + (b + waiting(
            w.calls[id].requests,
        )));
    }
}

/// Going round the calls that have something to send loses nothing of a call that is left,
/// repeats nothing and keeps the order of its bytes.
pub proof fn law_flushing_keeps_the_order(v: CallsView, c: ConnView, n: nat) -> (acts: Seq<Act>)
    requires
        all_in_range(v),
    ensures
        sending::performed(c, acts) == model::flushed(v, c, n).1,
        conserved(v, c, acts, model::flushed(v, c, n).0),
        all_in_range(model::flushed(v, c, n).0),
    decreases n,
{
    if n == 0 || v.pending.len() == 0 {
        lemma_nothing_sent(v, c);
        Seq::empty()
    } else {
        let acts = lemma_turn(v, c);
        let (mid, next) = model::turn(v, c);
        let more = law_flushing_keeps_the_order(mid, next, (n - 1) as nat);
        lemma_conserved_on(v, c, acts, mid, more, model::flushed(v, c, n).0);
        sending::lemma_after(c, acts, more);
        acts + more
    }
}

proof fn lemma_waiting_push(requests: Seq<PendingView>, p: PendingView)
    ensures
        waiting(requests.push(p)) == waiting(requests) + p.bytes.skip(p.pos as int),
    decreases requests.len(),
{
    let all = requests.push(p);
    let tail = p.bytes.skip(p.pos as int);
    if requests.len() == 0 {
        assert(all.drop_first() =~= requests);
        assert(tail + Seq::<u8>::empty() =~= Seq::<u8>::empty() + tail);
    } else {
        assert(all.drop_first() =~= requests.drop_first().push(p));
        lemma_waiting_push(requests.drop_first(), p);
        let head = requests[0].bytes.skip(requests[0].pos as int);
        assert(head + (waiting(requests.drop_first()) + tail) =~= (head + waiting(
            requests.drop_first(),
        )) + tail);
    }
}

proof fn lemma_continued(
    v: CallsView,
    c: ConnView,
    id: u32,
    bytes: Seq<u8>,
    consumed: nat,
    end_stream: bool,
) -> (acts: Seq<Act>)
    requires
        consumed <= bytes.len(),
    ensures
        sending::performed(c, acts) == model::continued(v, c, id, bytes, consumed, end_stream).0,
        forall|other: u32|
            other != id ==> #[trigger] sending::body_sent(c, acts, other) == Seq::<u8>::empty(),
        model::continued(v, c, id, bytes, consumed, end_stream).1 matches Ok(n) ==> n
            <= bytes.len() && sending::body_sent(c, acts, id) + bytes.skip(n as int) == bytes.skip(
            consumed as int,
        ),
    decreases bytes.len() - consumed,
{
    if consumed >= bytes.len() || consumed < frame::PREFIX_LEN {
        assert(Seq::<u8>::empty() + bytes.skip(consumed as int) =~= bytes.skip(consumed as int));
        Seq::empty()
    } else {
        conn::model::lemma_sending_keeps_ingress(c, id);
        let rest = bytes.skip(consumed as int);
        let a = Act::Data { stream: id, bytes: rest, end_stream };
        let (next, out) = conn::model::data_sent(c, id, rest, end_stream);
        sending::lemma_first(c, a, Seq::empty());
        assert forall|other: u32|
            sending::carried(c, a, other) + Seq::<u8>::empty() == sending::carried(
                c,
                a,
                other,
            ) by {
            assert(sending::carried(c, a, other) + Seq::<u8>::empty() =~= sending::carried(
                c,
                a,
                other,
            ));
        }
        match out {
            Err(_) => seq![a] + Seq::empty(),
            Ok(n) => {
                if n == 0 {
                    assert(rest.take(0) + rest =~= rest);
                    seq![a] + Seq::empty()
                } else {
                    let more = lemma_continued(v, next, id, bytes, (consumed + n) as nat, end_stream);
                    sending::lemma_first(c, a, more);
                    assert forall|other: u32| other != id implies #[trigger] sending::body_sent(
                        c,
                        seq![a] + more,
                        other,
                    ) == Seq::<u8>::empty() by {
                        assert(sending::body_sent(next, more, other) == Seq::<u8>::empty());
                        assert(Seq::<u8>::empty() + Seq::<u8>::empty() =~= Seq::<u8>::empty());
                    }
                    match model::continued(v, c, id, bytes, consumed, end_stream).1 {
                        Ok(k) => {
                            let x = rest.take(n as int);
                            let y = sending::body_sent(next, more, id);
                            assert((x + y) + bytes.skip(k as int) =~= x + (y + bytes.skip(
                                k as int,
                            )));
                            assert(x + bytes.skip(consumed + n) =~= rest);
                        },
                        Err(_) => {},
                    }
                    seq![a] + more
                }
            },
        }
    }
}

/// What the messages of a call come to when one is added.
pub open spec fn added(
    v: CallsView,
    c: ConnView,
    acts: Seq<Act>,
    w: CallsView,
    id: u32,
    bytes: Seq<u8>,
) -> bool {
    forall|x: u32| #[trigger]
        w.has(x) ==> v.has(x) && sending::body_sent(c, acts, x) + waiting(w.calls[x].requests)
            == waiting(v.calls[x].requests) + (if x == id {
            bytes
        } else {
            Seq::empty()
        })
}

proof fn lemma_queued(
    v: CallsView,
    c: ConnView,
    id: u32,
    bytes: Seq<u8>,
    end_stream: bool,
    place: bool,
    marked: CallsView,
) -> (acts: Seq<Act>)
    requires
        all_in_range(v),
        model::enqueued(v, id, bytes, end_stream, place).1 is Ok,
        ({
            let next = model::enqueued(v, id, bytes, end_stream, place).0;
            marked == (if end_stream {
                model::closed(next, id)
            } else {
                next
            })
        }),
    ensures
        sending::performed(c, acts) == model::flushed(marked, c, marked.pending.len()).1,
        added(v, c, acts, model::flushed(marked, c, marked.pending.len()).0, id, bytes),
{
    let p = PendingView { bytes, pos: 0, end_stream };
    lemma_waiting_push(v.calls[id].requests, p);
    assert(bytes.skip(0) =~= bytes);
    assert forall|x: u32| #[trigger] marked.has(x) implies in_range(marked.calls[x].requests) by {
        assert(v.has(x));
        if x == id {
            let all = v.calls[id].requests.push(p);
            assert forall|i: int| 0 <= i < all.len() implies (#[trigger] all[i]).pos
                <= all[i].bytes.len() by {
                if i < v.calls[id].requests.len() {
                    assert(all[i] == v.calls[id].requests[i]);
                }
            }
        }
    }
    let n = marked.pending.len();
    let acts = law_flushing_keeps_the_order(marked, c, n);
    let w = model::flushed(marked, c, n).0;
    assert forall|x: u32| #[trigger] w.has(x) implies v.has(x) && sending::body_sent(c, acts, x)
        + waiting(w.calls[x].requests) == waiting(v.calls[x].requests) + (if x == id {
        bytes
    } else {
        Seq::empty()
    }) by {
        assert(marked.has(x));
        if x != id {
            assert(waiting(v.calls[x].requests) + Seq::<u8>::empty() =~= waiting(
                v.calls[x].requests,
            ));
        }
    }
    acts
}

proof fn lemma_at_once(
    v: CallsView,
    c: ConnView,
    id: u32,
    bytes: Seq<u8>,
    end_stream: bool,
    place: bool,
) -> (acts: Seq<Act>)
    requires
        v.has(id),
        v.calls[id].requests.len() == 0,
        model::first_sent(v, c, id, bytes, end_stream, place).2 is Ok,
    ensures
        sending::performed(c, acts) == model::first_sent(v, c, id, bytes, end_stream, place).1,
        added(
            v,
            c,
            acts,
            model::first_sent(v, c, id, bytes, end_stream, place).0,
            id,
            bytes,
        ),
{
    conn::model::lemma_sending_keeps_ingress(c, id);
    let (next, out) = conn::model::data_sent(c, id, bytes, end_stream);
    let n = out->Ok_0;
    let a = Act::Data { stream: id, bytes, end_stream };
    let more = lemma_continued(v, next, id, bytes, n as nat, end_stream);
    let acts = seq![a] + more;
    sending::lemma_first(c, a, more);
    let w = model::first_sent(v, c, id, bytes, end_stream, place).0;
    let k = model::continued(v, next, id, bytes, n as nat, end_stream).1->Ok_0;
    let x = bytes.take(n as int);
    let y = sending::body_sent(next, more, id);
    assert(x + bytes.skip(n as int) =~= bytes);
    assert((x + y) + bytes.skip(k as int) =~= x + (y + bytes.skip(k as int)));
    let requests = v.calls[id].requests;
    assert(requests =~= Seq::empty());
    let kept = PendingView { bytes: bytes.skip(k as int), pos: 0, end_stream };
    lemma_waiting_push(requests, kept);
    assert(kept.bytes.skip(0) =~= kept.bytes);
    assert(bytes.skip(bytes.len() as int) =~= Seq::<u8>::empty());
    assert forall|z: u32| #[trigger] w.has(z) implies v.has(z) && sending::body_sent(c, acts, z)
        + waiting(w.calls[z].requests) == waiting(v.calls[z].requests) + (if z == id {
        bytes
    } else {
        Seq::empty()
    }) by {
        if z == id {
            assert(Seq::<u8>::empty() + bytes =~= bytes);
            assert(Seq::<u8>::empty() + kept.bytes =~= kept.bytes);
        } else {
            let e = Seq::<u8>::empty();
            assert(sending::body_sent(next, more, z) == e);
            assert(e + e =~= e);
            assert(e + waiting(v.calls[z].requests) =~= waiting(v.calls[z].requests) + e);
        }
    }
    acts
}

/// A message that is sent goes out behind what waited, or waits behind it: after it, what was
/// sent and what waits make up what waited before and the message with its prefix.
pub proof fn law_sent_messages_follow_each_other(
    v: CallsView,
    c: ConnView,
    id: u32,
    payload: Seq<u8>,
    end_stream: bool,
    place: bool,
) -> (acts: Seq<Act>)
    requires
        all_in_range(v),
        model::message_sent(v, c, id, payload, end_stream, place).2 is Ok,
    ensures
        sending::performed(c, acts) == model::message_sent(v, c, id, payload, end_stream, place).1,
        added(
            v,
            c,
            acts,
            model::message_sent(v, c, id, payload, end_stream, place).0,
            id,
            frame::framed(FrameView { compressed: false, payload }),
        ),
{
    let bytes = frame::framed(FrameView { compressed: false, payload });
    if v.calls[id].requests.len() > 0 {
        let next = model::enqueued(v, id, bytes, end_stream, place).0;
        let marked = if end_stream {
            model::closed(next, id)
        } else {
            next
        };
        lemma_queued(v, c, id, bytes, end_stream, place, marked)
    } else {
        lemma_at_once(v, c, id, bytes, end_stream, place)
    }
}

/// A whole message is read at once and needs no place.
proof fn lemma_whole_message(max: usize, m: FrameView, more: Seq<u8>)
    requires
        m.payload.len() <= max,
        m.payload.len() <= u32::MAX,
    ensures
        forall|place: bool| #[trigger]
            frame::deframed(frame::fresh(max), frame::framed(m) + more, place) == (
                frame::fresh(max),
                more,
                Ok::<Option<FrameView>, FrameError>(Some(m)),
            ),
        !frame::needs_place(frame::fresh(max), frame::framed(m) + more),
{
    frame::lemma_one_message(max, m, more);
    frame::lemma_places(frame::fresh(max), frame::framed(m) + more);
    assert forall|place: bool| #[trigger]
        frame::deframed(frame::fresh(max), frame::framed(m) + more, place) == (
            frame::fresh(max),
            more,
            Ok::<Option<FrameView>, FrameError>(Some(m)),
        ) by {
        assert(place || !place);
    }
}

/// A call to which no answer has come.
pub open spec fn unanswered(call: CallView, max: usize) -> bool {
    &&& call.deframer == frame::fresh(max)
    &&& call.message is None
    &&& call.buffered_len == 0
    &&& call.message_count == 0
}

/// The answer to a unary call is handed on as it was given: its metadata, its message, its
/// trailers and its status; and the call makes room for another.
pub proof fn law_unary_answers_are_handed_on(
    v: ClientView,
    id: u32,
    max: usize,
    metadata: Seq<FieldView>,
    m: FrameView,
    s: StatusView,
    trailers: Seq<FieldView>,
    places: (bool, bool, bool),
)
    requires
        v.calls.has(id),
        v.calls.calls[id].mode == ResponseMode::Unary,
        unanswered(v.calls.calls[id], max),
        v.inbox.complete.len() < v.inbox.complete_capacity,
        v.inbox.max_msgs > 0,
        m.payload.len() <= v.inbox.max_len,
        m.payload.len() <= max,
        m.payload.len() <= u32::MAX,
        laws::names_are_good(metadata),
        laws::names_are_good(trailers),
        headers::response_fields(metadata) is Ok,
        headers::trailer_fields(s, trailers) is Ok,
    ensures
        ({
            let head = model::event_taken(
                v,
                EventView::Headers {
                    stream: id,
                    fields: headers::response_fields(metadata)->Ok_0,
                    end_stream: false,
                    trailing: false,
                },
                places.0,
            );
            let data = model::event_taken(
                head.0,
                EventView::Data { stream: id, data: frame::framed(m), end_stream: false },
                places.1,
            );
            let end = model::event_taken(
                data.0,
                EventView::Headers {
                    stream: id,
                    fields: headers::trailer_fields(s, trailers)->Ok_0,
                    end_stream: true,
                    trailing: true,
                },
                places.2,
            );
            &&& head.1 is Ok
            &&& data.1 is Ok
            &&& end.1 is Ok
            &&& end.0 == ClientView {
                calls: model::removed(v.calls, id),
                inbox: InboxView {
                    complete: v.inbox.complete.push(
                        UnaryView { stream: id, metadata, message: Some(m), trailers, status: s },
                    ),
                    ..v.inbox
                },
                ..v
            }
        }),
{
    reveal(model::event_taken);
    laws::law_responses_are_read_back(metadata);
    laws::law_endings_are_read_back(s, trailers);
    let fields = headers::response_fields(metadata)->Ok_0;
    let head = model::head_taken(v, id, fields, false);
    assert(head.1 is Ok);
    let call = CallView { metadata, ..v.calls.calls[id] };
    assert(head.0.calls.calls[id] == call);
    let bytes = frame::framed(m);
    assert(bytes + Seq::<u8>::empty() =~= bytes);
    lemma_whole_message(max, m, Seq::empty());
    reveal_with_fuel(model::data_taken, 2);
    let data = model::data_taken(head.0, id, bytes, places.1);
    assert(data.1 is Ok);
    let after = data.0.calls.calls[id];
    assert(after.message == Some(m) && after.metadata == metadata);
    let end = model::ended(data.0, id, s, trailers, "trailers for unknown gRPC stream");
    assert(end.1 is Ok);
    assert(data.0.calls.calls.remove(id) =~= v.calls.calls.remove(id));
    assert(end.0.calls == model::removed(v.calls, id));
    assert(end.0.inbox.complete == v.inbox.complete.push(
        UnaryView { stream: id, metadata, message: Some(m), trailers, status: s },
    ));
}

/// The pieces that messages are handed on as.
pub open spec fn as_pieces(id: u32, list: Seq<FrameView>) -> Seq<PieceView> {
    list.map_values(|m: FrameView| PieceView::Message { stream: id, message: m })
}

/// The bytes of all payloads.
pub open spec fn payload_len(list: Seq<FrameView>) -> nat
    decreases list.len(),
{
    if list.len() == 0 {
        0
    } else {
        list[0].payload.len() + payload_len(list.drop_first())
    }
}

/// The messages of a streaming answer are handed on one by one, in order.
pub proof fn law_streamed_messages_are_handed_on(
    v: ClientView,
    id: u32,
    max: usize,
    list: Seq<FrameView>,
    place: bool,
)
    requires
        v.calls.has(id),
        v.calls.calls[id].mode == ResponseMode::Streaming,
        v.calls.calls[id].deframer == frame::fresh(max),
        forall|i: int|
            0 <= i < list.len() ==> (#[trigger] list[i]).payload.len() <= max
                && list[i].payload.len() <= u32::MAX,
        v.inbox.events.len() + list.len() <= v.inbox.event_capacity,
        v.calls.calls[id].message_count + list.len() <= v.inbox.max_msgs,
        v.calls.calls[id].buffered_len + payload_len(list) <= v.inbox.max_len,
    ensures
        ({
            let call = v.calls.calls[id];
            let r = model::data_taken(v, id, frame::all_framed(list), place);
            &&& r.1 is Ok
            &&& r.0 == ClientView {
                calls: v.calls.with(
                    id,
                    CallView {
                        buffered_len: (call.buffered_len + payload_len(list)) as usize,
                        message_count: (call.message_count + list.len()) as usize,
                        ..call
                    },
                ),
                inbox: InboxView { events: v.inbox.events + as_pieces(id, list), ..v.inbox },
                ..v
            }
        }),
    decreases list.len(),
{
    let call = v.calls.calls[id];
    if list.len() == 0 {
        assert(v.calls.calls.insert(id, call) =~= v.calls.calls);
        assert(v.inbox.events + as_pieces(id, list) =~= v.inbox.events);
    } else {
        let m = list[0];
        let rest = list.drop_first();
        let more = frame::all_framed(rest);
        lemma_whole_message(max, m, more);
        frame::lemma_one_message(max, m, more);
        assert forall|i: int| 0 <= i < rest.len() implies (#[trigger] rest[i]).payload.len() <= max
            && rest[i].payload.len() <= u32::MAX by {
            assert(rest[i] == list[i + 1]);
        }
        let read = ClientView {
            calls: v.calls.with(id, CallView { deframer: frame::fresh(max), ..call }),
            ..v
        };
        let (next, out) = model::message_taken(read, id, m);
        assert(out is Ok);
        law_streamed_messages_are_handed_on(next, id, max, rest, place);
        let r = model::data_taken(next, id, more, place);
        assert(model::data_taken(v, id, frame::all_framed(list), place) == r);
        assert(v.inbox.events + as_pieces(id, list) =~= v.inbox.events.push(
            PieceView::Message { stream: id, message: m },
        ) + as_pieces(id, rest));
        assert(r.0.calls.calls =~= v.calls.with(
            id,
            CallView {
                buffered_len: (call.buffered_len + payload_len(list)) as usize,
                message_count: (call.message_count + list.len()) as usize,
                ..call
            },
        ).calls);
    }
}

proof fn lemma_data_keeps_others(v: ClientView, id: u32, data: Seq<u8>, place: bool, other: u32)
    requires
        other != id,
    ensures
        ({
            let w = model::data_taken(v, id, data, place).0.calls;
            w.has(other) == v.calls.has(other) && w.calls[other] == v.calls.calls[other]
        }),
    decreases
            (if v.calls.has(id) {
                v.inbox.max_msgs - v.calls.calls[id].message_count
            } else {
                0
            }),
{
    if data.len() > 0 && v.calls.has(id) {
        let call = v.calls.calls[id];
        let (d, rest, out) = frame::deframed(
            call.deframer,
            data,
            v.inbox.fragments.gives(place),
        );
        let read = ClientView {
            calls: v.calls.with(id, CallView { deframer: d, ..call }),
            inbox: InboxView {
                fragments: frame::asked_for(v.inbox.fragments, call.deframer, data, place),
                ..v.inbox
            },
            ..v
        };
        match out {
            Ok(Some(m)) => {
                let (next, taken) = model::message_taken(read, id, m);
                if taken is Ok {
                    lemma_data_keeps_others(next, id, rest, place, other);
                }
            },
            _ => {},
        }
    }
}

/// What comes for one call leaves every other as it was.
pub proof fn law_calls_do_not_meddle(v: ClientView, event: EventView, place: bool, other: u32)
    requires
        crate::h2::event::stream_of(event) != Some(other),
    ensures
        ({
            let w = model::event_taken(v, event, place).0.calls;
            w.has(other) == v.calls.has(other) && w.calls[other] == v.calls.calls[other]
        }),
{
    reveal(model::event_taken);
    match event {
        EventView::Data { stream, data, .. } => {
            lemma_data_keeps_others(v, stream, data, place, other);
        },
        _ => {},
    }
}

/// Whether no queue and no table of calls holds more than it may.
pub open spec fn calls_bounded(v: CallsView) -> bool {
    &&& v.calls.dom().finite()
    &&& v.calls.len() <= v.capacity
    &&& v.pending.len() <= v.pending_capacity
}

/// Whether no queue that waits for the owner holds more than it may.
pub open spec fn inbox_bounded(b: InboxView) -> bool {
    &&& b.complete.len() <= b.complete_capacity
    &&& b.events.len() <= b.event_capacity
}

/// Whether a client holds no more than it may.
pub open spec fn bounded(v: ClientView) -> bool {
    calls_bounded(v.calls) && inbox_bounded(v.inbox)
}

proof fn lemma_with_keeps(v: CallsView, id: u32, call: CallView)
    requires
        calls_bounded(v),
        v.has(id),
    ensures
        calls_bounded(v.with(id, call)),
{
    assert(v.calls.insert(id, call).dom() =~= v.calls.dom());
}

proof fn lemma_removed_keeps(v: CallsView, id: u32)
    requires
        calls_bounded(v),
    ensures
        calls_bounded(model::removed(v, id)),
        v.has(id) ==> model::removed(v, id).calls.len() + 1 == v.calls.len(),
        !model::removed(v, id).has(id),
{
    if v.has(id) {
        assert(v.calls.remove(id).dom() =~= v.calls.dom().remove(id));
        collections::lemma_others(v.pending, id);
    }
}

/// A call that has ended makes room for another.
pub proof fn law_ended_calls_make_room(v: CallsView, id: u32, new: u32, mode: ResponseMode)
    requires
        calls_bounded(v),
        v.has(id),
        new == id || !v.has(new),
    ensures
        model::inserted(model::removed(v, id), new, mode).1,
        calls_bounded(model::inserted(model::removed(v, id), new, mode).0),
{
    lemma_removed_keeps(v, id);
    lemma_inserted_keeps(model::removed(v, id), new, mode);
}

proof fn lemma_inserted_keeps(v: CallsView, id: u32, mode: ResponseMode)
    requires
        calls_bounded(v),
    ensures
        calls_bounded(model::inserted(v, id, mode).0),
{
    assert(v.calls.insert(id, model::new_call(mode, v.max_message)).dom() =~= v.calls.dom().insert(
        id,
    ));
}

proof fn lemma_turn_keeps(v: CallsView, c: ConnView)
    requires
        calls_bounded(v),
        v.pending.len() > 0,
    ensures
        calls_bounded(model::turn(v, c).0),
{
    let id = v.pending[0];
    if v.has(id) {
        let popped = CallsView { pending: v.pending.drop_first(), ..v };
        let call = CallView { queued: false, ..v.calls[id] };
        let left = model::call_driven(c, id, call.requests).1;
        lemma_with_keeps(popped, id, CallView { requests: left, ..call });
        let after = popped.with(id, CallView { requests: left, ..call });
        lemma_removed_keeps(after, id);
        lemma_with_keeps(after, id, CallView { requests: left, queued: true, ..call });
    }
}

proof fn lemma_flushed_keeps(v: CallsView, c: ConnView, n: nat)
    requires
        calls_bounded(v),
    ensures
        calls_bounded(model::flushed(v, c, n).0),
    decreases n,
{
    if n > 0 && v.pending.len() > 0 {
        lemma_turn_keeps(v, c);
        let (next, conn) = model::turn(v, c);
        lemma_flushed_keeps(next, conn, (n - 1) as nat);
    }
}

proof fn lemma_enqueued_keeps(v: CallsView, id: u32, bytes: Seq<u8>, end_stream: bool, place: bool)
    requires
        calls_bounded(v),
    ensures
        calls_bounded(model::enqueued(v, id, bytes, end_stream, place).0),
        model::enqueued(v, id, bytes, end_stream, place).1 is Ok ==> v.has(id) && model::enqueued(
            v,
            id,
            bytes,
            end_stream,
            place,
        ).0.has(id),
{
    let call = v.calls[id];
    if v.has(id) {
        lemma_with_keeps(
            v,
            id,
            CallView {
                requests: call.requests.push(PendingView { bytes, pos: 0, end_stream }),
                queued: true,
                ..call
            },
        );
    }
}

/// No sending fills a queue or the table of calls over its limit.
pub proof fn law_sending_keeps_the_limits(
    v: CallsView,
    c: ConnView,
    id: u32,
    payload: Seq<u8>,
    end_stream: bool,
    place: bool,
)
    requires
        calls_bounded(v),
    ensures
        calls_bounded(model::message_sent(v, c, id, payload, end_stream, place).0),
        calls_bounded(model::finished(v, c, id).0),
        forall|n: nat| calls_bounded((#[trigger] model::flushed(v, c, n)).0),
{
    let bytes = frame::framed(FrameView { compressed: false, payload });
    assert forall|n: nat| calls_bounded((#[trigger] model::flushed(v, c, n)).0) by {
        lemma_flushed_keeps(v, c, n);
    }
    lemma_removed_keeps(v, id);
    if v.has(id) {
        let call = v.calls[id];
        lemma_with_keeps(v, id, CallView { closed: true, ..call });
        lemma_enqueued_keeps(v, id, bytes, end_stream, place);
        let queued = model::enqueued(v, id, bytes, end_stream, place).0;
        if queued.has(id) {
            lemma_with_keeps(queued, id, CallView { closed: true, ..queued.calls[id] });
        }
        lemma_flushed_keeps(queued, c, queued.pending.len());
        let marked = model::closed(queued, id);
        lemma_flushed_keeps(marked, c, marked.pending.len());
        assert forall|rest: Seq<u8>| calls_bounded(
            (#[trigger] model::enqueued(v, id, rest, end_stream, place)).0,
        ) && calls_bounded(
            model::removed(model::enqueued(v, id, rest, end_stream, place).0, id),
        ) && calls_bounded(
            model::closed(model::enqueued(v, id, rest, end_stream, place).0, id),
        ) by {
            lemma_enqueued_keeps(v, id, rest, end_stream, place);
            let next = model::enqueued(v, id, rest, end_stream, place).0;
            lemma_removed_keeps(next, id);
            if next.has(id) {
                lemma_with_keeps(next, id, CallView { closed: true, ..next.calls[id] });
            }
        }
        let shut = model::closed(v, id);
        if call.requests.len() > 0 {
            let last = PendingView { end_stream: true, ..call.requests.last() };
            let ended = CallView {
                requests: call.requests.drop_last().push(last),
                ..shut.calls[id]
            };
            lemma_with_keeps(shut, id, ended);
            let ending = shut.with(id, ended);
            lemma_flushed_keeps(ending, c, ending.pending.len());
        } else {
            lemma_flushed_keeps(shut, c, shut.pending.len());
        }
    }
}

proof fn lemma_data_keeps(v: ClientView, id: u32, data: Seq<u8>, place: bool)
    requires
        bounded(v),
    ensures
        bounded(model::data_taken(v, id, data, place).0),
    decreases
            (if v.calls.has(id) {
                v.inbox.max_msgs - v.calls.calls[id].message_count
            } else {
                0
            }),
{
    if data.len() > 0 && v.calls.has(id) {
        let call = v.calls.calls[id];
        let (d, rest, out) = frame::deframed(
            call.deframer,
            data,
            v.inbox.fragments.gives(place),
        );
        lemma_with_keeps(v.calls, id, CallView { deframer: d, ..call });
        let read = ClientView {
            calls: v.calls.with(id, CallView { deframer: d, ..call }),
            inbox: InboxView {
                fragments: frame::asked_for(v.inbox.fragments, call.deframer, data, place),
                ..v.inbox
            },
            ..v
        };
        match out {
            Ok(Some(m)) => {
                let (next, taken) = model::message_taken(read, id, m);
                lemma_with_keeps(read.calls, id, next.calls.calls[id]);
                assert(next.calls == read.calls.with(id, next.calls.calls[id]));
                if taken is Ok {
                    lemma_data_keeps(next, id, rest, place);
                }
            },
            _ => {},
        }
    }
}

/// Whatever comes, no queue and no table of calls holds more than it may.
pub proof fn law_events_keep_the_limits(v: ClientView, event: EventView, place: bool)
    requires
        bounded(v),
    ensures
        bounded(model::event_taken(v, event, place).0),
{
    reveal(model::event_taken);
    match event {
        EventView::Headers { stream, fields, end_stream, trailing } => {
            lemma_removed_keeps(v.calls, stream);
            if !trailing && v.calls.has(stream) {
                let metadata = headers::response_head(fields)->Ok_0;
                let call = CallView { metadata, ..v.calls.calls[stream] };
                lemma_with_keeps(v.calls, stream, call);
                lemma_removed_keeps(v.calls.with(stream, call), stream);
            }
        },
        EventView::Data { stream, data, end_stream } => {
            lemma_data_keeps(v, stream, data, place);
            let next = model::data_taken(v, stream, data, place).0;
            lemma_removed_keeps(next.calls, stream);
        },
        EventView::StreamReset { stream, error } => {
            lemma_removed_keeps(v.calls, stream);
        },
        _ => {},
    }
}

/// A message that has to wait takes one of the slots that were set up: with one left it is kept,
/// behind those that wait already, and with none left it is refused and nothing changes.
pub proof fn law_waiting_messages_use_their_slots(
    v: CallsView,
    id: u32,
    bytes: Seq<u8>,
    end_stream: bool,
    place: bool,
)
    requires
        v.has(id),
        bytes.len() <= v.max_pending,
        v.calls[id].queued || v.pending.len() < v.pending_capacity,
    ensures
        v.room.held >= v.room.limit ==> model::enqueued(v, id, bytes, end_stream, place) == (
            v,
            Err::<(), StatusView>(model::exhausted("pending request messages are full")),
        ),
        v.room.held < v.room.limit && v.room.spent < u32::MAX - 1 ==> {
            let (w, r) = model::enqueued(v, id, bytes, end_stream, place);
            &&& r is Ok
            &&& w.room == v.room.more()
            &&& w.calls[id].requests == v.calls[id].requests.push(
                PendingView { bytes, pos: 0, end_stream },
            )
        },
{
}

} // verus!
