//! What a connection does with data of the peer, and which frames it does not take.

use crate::h2::conn::answers;
use crate::h2::conn::model;
use crate::h2::conn::model::{Chance, ConnView};
use crate::h2::conn::progress;
use crate::h2::egress;
use crate::h2::error::ConnError;
use crate::h2::event::EventView;
use crate::h2::flow;
use crate::h2::flow::Window;
use crate::h2::frame;
use crate::h2::frame::{ErrorCode, FrameView, HeadView, ParseError, HEADER_LEN};
use crate::h2::ingress;
use crate::h2::ingress::FrontView;
use crate::h2::retained_segments;
use crate::h2::stream::State;
use crate::h2::stream_registry;
use crate::h2::stream_registry::StreamRecord;
use crate::h2::wire;
use vstd::prelude::*;

verus! {

/// Whether so many bytes that were taken and not yet announced are to be announced: half of the
/// largest window of the receiver is used up.
pub open spec fn due(taken: int, target: u32) -> bool {
    taken >= 1 && taken >= target / 2
}

/// What tells the peer that it may send so many bytes more.
pub open spec fn told(taken: int, target: u32, id: int) -> Seq<u8> {
    if due(taken, target) {
        answers::framed(8, 0, id, answers::word(taken))
    } else {
        Seq::empty()
    }
}

/// Whether the peer may send so much on a stream: the stream is open for it, and both windows
/// have room.
pub open spec fn takes(v: ConnView, id: u32, n: int) -> bool {
    let r = v.streams.records[id];
    &&& v.has_stream(id)
    &&& 1 <= id <= 0x7fff_ffff
    &&& r.stream.state is Open || r.stream.state is HalfClosedLocal
    &&& n <= v.recv_window.value
    &&& n <= r.recv_window.value
    &&& v.recv_window.value + v.pending_release <= 0x7fff_ffff
    &&& r.recv_window.value + r.pending_release <= 0x7fff_ffff
}

/// What tells the peer of both windows goes out as it should.
#[verifier::rlimit(60)]
proof fn lemma_told(v: ConnView, id: u32, whole: int, part: int, a: Option<u32>, b: Option<u32>)
    requires
        egress::egress_inv(v.egress),
        v.egress.has_room(26),
        1 <= id <= 0x7fff_ffff,
        1 <= whole <= 0x7fff_ffff,
        1 <= part <= 0x7fff_ffff,
        a == Some(whole as u32) || a is None,
        b == Some(part as u32) || b is None,
    ensures
        ({
            let next = model::released(model::released(v, 0, a), id, b);
            let first = if a is Some {
                answers::framed(8, 0, 0, answers::word(whole))
            } else {
                Seq::empty()
            };
            let second = if b is Some {
                answers::framed(8, 0, id as int, answers::word(part))
            } else {
                Seq::empty()
            };
            &&& next == (ConnView { egress: next.egress, ..v })
            &&& next.egress.bytes == v.egress.bytes + (first + second)
            &&& next.egress.outgoing() == v.egress.outgoing() + (first + second)
        }),
{
    let first = if a is Some {
        answers::framed(8, 0, 0, answers::word(whole))
    } else {
        Seq::empty()
    };
    let second = if b is Some {
        answers::framed(8, 0, id as int, answers::word(part))
    } else {
        Seq::empty()
    };
    wire::law_frames_have_their_bytes(
        FrameView::WindowUpdate { stream: 0, increment: whole as u32 },
    );
    wire::law_frames_have_their_bytes(
        FrameView::WindowUpdate { stream: id, increment: part as u32 },
    );
    answers::lemma_quiet(v);
    let mid = model::released(v, 0, a);
    answers::lemma_quiet(mid);
    egress::law_order_is_kept(v.egress, first);
    assert(mid.egress.bytes =~= v.egress.bytes + first);
    assert(egress::egress_inv(mid.egress));
    egress::law_order_is_kept(mid.egress, second);
    assert(v.egress.bytes + first + second =~= v.egress.bytes + (first + second));
    assert(v.egress.outgoing() + first + second =~= v.egress.outgoing() + (first + second));
}

#[verifier::spinoff_prover]
#[verifier::rlimit(60)]
proof fn lemma_received(v: ConnView, id: u32, payload: Seq<u8>, end_stream: bool)
    requires
        egress::egress_inv(v.egress),
        v.egress.has_room(26),
        v.ingress.event_room(),
        forall|i: u32| #[trigger]
            v.streams.records.contains_key(i) ==> v.streams.records[i].stream.id.value() == i,
        payload.len() > 0,
        takes(v, id, payload.len() as int),
    ensures
        ({
            let n = payload.len() as int;
            let r = v.streams.records[id];
            let o = model::data_received(v, id, end_stream, payload);
            let whole = v.pending_release + n;
            let part = r.pending_release + n;
            let sent = told(whole, v.recv_target, 0) + told(
                part,
                v.local.initial_window_size,
                id as int,
            );
            &&& o.1 is Ok
            &&& o.0.ingress == v.ingress.with_event(
                EventView::Data { stream: id, data: payload, end_stream },
            )
            &&& o.0.egress.bytes == v.egress.bytes + sent
            &&& o.0.egress.outgoing() == v.egress.outgoing() + sent
            &&& due(whole, v.recv_target) ==> o.0.pending_release == 0 && o.0.recv_window.value
                == v.recv_window.value + v.pending_release
            &&& !due(whole, v.recv_target) ==> o.0.pending_release == whole
                && o.0.recv_window.value == v.recv_window.value - n
            &&& o.0.streams.records.remove(id) == v.streams.records.remove(id)
            &&& end_stream && r.stream.state is HalfClosedLocal ==> !o.0.has_stream(id)
            &&& !(end_stream && r.stream.state is HalfClosedLocal) ==> {
                let s = o.0.streams.records[id];
                &&& o.0.has_stream(id)
                &&& s.stream.state == (if end_stream {
                    State::HalfClosedRemote
                } else {
                    r.stream.state
                })
                &&& s.send_window == r.send_window
                &&& due(part, v.local.initial_window_size) ==> s.pending_release == 0
                    && s.recv_window.value == r.recv_window.value + r.pending_release
                &&& !due(part, v.local.initial_window_size) ==> s.pending_release == part
                    && s.recv_window.value == r.recv_window.value - n
            }
        }),
{
    let n = payload.len() as int;
    let r = v.streams.records[id];
    let whole = v.pending_release + n;
    let part = r.pending_release + n;
    let a = if due(whole, v.recv_target) {
        Some(whole as u32)
    } else {
        None
    };
    let b = if due(part, v.local.initial_window_size) {
        Some(part as u32)
    } else {
        None
    };
    let got = flow::received_pair(
        v.recv_window,
        r.recv_window,
        n,
        (v.pending_release, r.pending_release),
        (model::threshold(v.recv_target), model::threshold(v.local.initial_window_size)),
        true,
    );
    assert(got is Ok);
    let g = got->Ok_0;
    assert(g.conn.increment == a && g.stream.increment == b);
    let kept = StreamRecord {
        recv_window: Window { value: g.stream.window },
        pending_release: g.stream.pending,
        ..r
    };
    let w = ConnView {
        recv_window: Window { value: g.conn.window },
        pending_release: g.conn.pending,
        streams: stream_registry::recorded(v.streams, kept),
        ..v
    };
    lemma_told(w, id, whole, part, a, b);
    let next = model::windows_received(v, id, g);
    assert(next == model::released(model::released(w, 0, a), id, b));
    assert(next.has_stream(id));
    assert(next.streams.records[id] == kept);
    let o = model::data_received(v, id, end_stream, payload);
    assert(o.0.streams.records.remove(id) =~= v.streams.records.remove(id));
}

/// DATA on a stream that the peer may send on is told with its bytes. It is taken from the window
/// of the connection and from that of the stream. Once half of a window is used up the peer is
/// told that it may send as much again, and the window is as large as it was before.
#[verifier::spinoff_prover]
#[verifier::rlimit(60)]
pub proof fn law_data_is_taken(
    v: ConnView,
    server: bool,
    id: u32,
    payload: Seq<u8>,
    end_stream: bool,
    chances: Seq<Chance>,
)
    requires
        answers::waits(v),
        answers::comes(v, 0, id as int, payload),
        payload.len() > 0,
        takes(v, id, payload.len() as int),
        v.ingress.data_places.gives(chances[0].place),
    ensures
        ({
            let n = payload.len() as int;
            let r = v.streams.records[id];
            let o = model::ingested(
                v,
                server,
                answers::framed(0, wire::mark(end_stream, 1), id as int, payload),
                chances,
            );
            let whole = v.pending_release + n;
            let part = r.pending_release + n;
            &&& answers::answers(
                v,
                o,
                seq![EventView::Data { stream: id, data: payload, end_stream }],
                told(whole, v.recv_target, 0) + told(part, v.local.initial_window_size, id as int),
            )
            &&& due(whole, v.recv_target) ==> o.0.pending_release == 0 && o.0.recv_window.value
                == v.recv_window.value + v.pending_release
            &&& !due(whole, v.recv_target) ==> o.0.pending_release == whole
                && o.0.recv_window.value == v.recv_window.value - n
            &&& o.0.streams.records.remove(id) == v.streams.records.remove(id)
            &&& end_stream && r.stream.state is HalfClosedLocal ==> !o.0.has_stream(id)
            &&& !(end_stream && r.stream.state is HalfClosedLocal) ==> {
                let s = o.0.streams.records[id];
                &&& o.0.has_stream(id)
                &&& s.stream.state == (if end_stream {
                    State::HalfClosedRemote
                } else {
                    r.stream.state
                })
                &&& s.send_window == r.send_window
                &&& due(part, v.local.initial_window_size) ==> s.pending_release == 0
                    && s.recv_window.value == r.recv_window.value + r.pending_release
                &&& !due(part, v.local.initial_window_size) ==> s.pending_release == part
                    && s.recv_window.value == r.recv_window.value - n
            }
        }),
{
    let flags = wire::mark(end_stream, 1);
    let f = answers::framed(0, flags, id as int, payload);
    answers::lemma_one_frame(v, server, 0, flags, id as int, payload, chances);
    frame::lemma_flag_bits(end_stream, false, false);
    reveal(model::data_frame);
    reveal(model::data_handled);
    let u = answers::fed(v, f);
    let w = u.with_ingress(u.ingress.asked_for_data(true)).consumed(f.len() as int);
    lemma_received(w, id, payload, end_stream);
    let e = EventView::Data { stream: id, data: payload, end_stream };
    assert(v.ingress.events.push(e) =~= v.ingress.events + seq![e]);
}

/// DATA that goes beyond the window of the connection or beyond that of its stream is a failure.
#[verifier::rlimit(60)]
pub proof fn law_data_beyond_a_window_is_refused(
    v: ConnView,
    server: bool,
    id: u32,
    payload: Seq<u8>,
    end_stream: bool,
    chances: Seq<Chance>,
)
    requires
        answers::waits(v),
        answers::comes(v, 0, id as int, payload),
        v.has_stream(id),
        payload.len() > 0,
        payload.len() > v.recv_window.value || payload.len()
            > v.streams.records[id].recv_window.value,
        v.ingress.data_places.gives(chances[0].place),
    ensures
        ({
            let o = model::ingested(
                v,
                server,
                answers::framed(0, wire::mark(end_stream, 1), id as int, payload),
                chances,
            );
            &&& o.1 == Err::<(), ConnError>(ConnError::FlowControl)
            &&& o.0.ingress.events == v.ingress.events
        }),
{
    let flags = wire::mark(end_stream, 1);
    answers::lemma_one_frame(v, server, 0, flags, id as int, payload, chances);
    frame::lemma_flag_bits(end_stream, false, false);
    reveal(model::data_frame);
    reveal(model::data_handled);
}

/// Whether the peer or this end could still open a stream with such a number.
pub open spec fn never_opened(v: ConnView, server: bool, id: u32) -> bool {
    &&& id != 0
    &&& !v.has_stream(id)
    &&& if (id % 2 == 1) == server {
        id > v.streams.last_peer
    } else {
        v.streams.next_local matches Some(next) && id >= next
    }
}

/// DATA needs a stream: on one that was never opened it is a failure of the protocol, and so it
/// is on the connection itself. On one that has ended it comes too late. On one that was reset
/// lately RST_STREAM says that the stream is closed, and nothing is told.
#[verifier::spinoff_prover]
#[verifier::rlimit(60)]
pub proof fn law_data_needs_a_stream(
    v: ConnView,
    server: bool,
    id: u32,
    payload: Seq<u8>,
    end_stream: bool,
    chances: Seq<Chance>,
)
    requires
        answers::waits(v),
        answers::comes(v, 0, id as int, payload),
        v.ingress.data_places.gives(chances[0].place),
        !v.has_stream(id),
    ensures
        ({
            let o = model::ingested(
                v,
                server,
                answers::framed(0, wire::mark(end_stream, 1), id as int, payload),
                chances,
            );
            let rst = answers::framed(3, 0, id as int, seq![0u8, 0, 0, 5]);
            &&& id == 0 ==> o.1 == Err::<(), ConnError>(ConnError::ParseError(ParseError::Protocol))
            &&& never_opened(v, server, id) ==> o.1 == Err::<(), ConnError>(ConnError::Protocol)
            &&& id != 0 && !never_opened(v, server, id) ==> {
                &&& !v.streams.reset.contains(id) ==> o.1 == Err::<(), ConnError>(
                    ConnError::StreamClosed,
                )
                &&& v.streams.reset.contains(id) ==> answers::answers(v, o, Seq::empty(), rst)
                    && o.0.streams == v.streams
            }
        }),
{
    let flags = wire::mark(end_stream, 1);
    answers::lemma_one_frame(v, server, 0, flags, id as int, payload, chances);
    frame::lemma_flag_bits(end_stream, false, false);
    reveal(model::data_frame);
    reveal(model::data_handled);
    answers::lemma_quiet(v);
    if id != 0 {
        lemma_closed_is_said(v, id);
    }
}

#[verifier::rlimit(60)]
proof fn lemma_closed_is_said(v: ConnView, id: u32)
    requires
        1 <= id <= 0x7fff_ffff,
        egress::egress_inv(v.egress),
    ensures
        ({
            let rst = answers::framed(3, 0, id as int, seq![0u8, 0, 0, 5]);
            let f = FrameView::RstStream { stream: id, error: ErrorCode::StreamClosed };
            &&& frame::frame_wire(f) == rst
            &&& v.egress.with(rst).outgoing() == v.egress.outgoing() + rst
        }),
{
    let rst = answers::framed(3, 0, id as int, seq![0u8, 0, 0, 5]);
    assert(answers::word(5) =~= seq![0u8, 0, 0, 5]);
    wire::law_frames_have_their_bytes(
        FrameView::RstStream { stream: id, error: ErrorCode::StreamClosed },
    );
    egress::law_order_is_kept(v.egress, rst);
}

/// DATA on a stream whose peer has said that it is done is not told. RST_STREAM says that the
/// stream is closed, and the stream is forgotten.
#[verifier::spinoff_prover]
#[verifier::rlimit(60)]
pub proof fn law_data_after_the_end_is_refused(
    v: ConnView,
    server: bool,
    id: u32,
    end_stream: bool,
    chances: Seq<Chance>,
)
    requires
        answers::waits(v),
        answers::comes(v, 0, id as int, Seq::empty()),
        v.ingress.data_places.gives(chances[0].place),
        v.has_stream(id),
        v.streams.records[id].stream.state is HalfClosedRemote,
    ensures
        ({
            let o = model::ingested(
                v,
                server,
                answers::framed(0, wire::mark(end_stream, 1), id as int, Seq::empty()),
                chances,
            );
            let rst = answers::framed(3, 0, id as int, seq![0u8, 0, 0, 5]);
            &&& answers::answers(v, o, Seq::empty(), rst)
            &&& o.0.streams.records == v.streams.records.remove(id)
        }),
{
    let flags = wire::mark(end_stream, 1);
    let none = Seq::<u8>::empty();
    answers::lemma_one_frame(v, server, 0, flags, id as int, none, chances);
    frame::lemma_flag_bits(end_stream, false, false);
    reveal(model::data_frame);
    reveal(model::data_handled);
    answers::lemma_quiet(v);
    lemma_closed_is_said(v, id);
    let o = model::ingested(v, server, answers::framed(0, flags, id as int, none), chances);
    assert(o.0.streams.records =~= v.streams.records.remove(id));
}

/// Frames of a fixed length have it: four bytes for RST_STREAM and WINDOW_UPDATE, five for
/// PRIORITY, eight for PING, none for an acknowledgement; SETTINGS come six bytes at a time, and
/// GOAWAY has eight bytes at least.
#[verifier::rlimit(60)]
pub proof fn law_lengths_are_kept(
    v: ConnView,
    server: bool,
    kind: int,
    flags: int,
    id: int,
    payload: Seq<u8>,
    chances: Seq<Chance>,
)
    requires
        answers::waits(v),
        answers::comes(v, flags, id, payload),
        ({
            ||| kind == 2 && payload.len() != 5
            ||| kind == 3 && payload.len() != 4
            ||| kind == 4 && id == 0 && payload.len() % 6 != 0
            ||| kind == 4 && id == 0 && flags == 1 && payload.len() != 0
            ||| kind == 6 && payload.len() != 8
            ||| kind == 7 && payload.len() < 8
            ||| kind == 8 && payload.len() != 4
        }),
    ensures
        ({
            let o = model::ingested(v, server, answers::framed(kind, flags, id, payload), chances);
            &&& o.1 == Err::<(), ConnError>(ConnError::ParseError(ParseError::FrameSize))
            &&& o.0.ingress.events == v.ingress.events
            &&& o.0.egress == v.egress
            &&& o.0.streams == v.streams
        }),
{
    answers::lemma_one_frame(v, server, kind, flags, id, payload, chances);
    frame::lemma_flag_bits(true, false, false);
    reveal(model::settings_frame);
    reveal(model::ping_frame);
    reveal(model::goaway_frame);
    reveal(model::update_frame);
    reveal(model::rst_frame);
    reveal(model::priority_frame);
}

/// Frames are where they belong: SETTINGS, PING and GOAWAY on the connection, DATA, HEADERS,
/// PRIORITY, RST_STREAM and PUSH_PROMISE on a stream.
#[verifier::rlimit(60)]
pub proof fn law_frames_are_where_they_belong(
    v: ConnView,
    server: bool,
    kind: int,
    flags: int,
    id: int,
    payload: Seq<u8>,
    chances: Seq<Chance>,
)
    requires
        answers::waits(v),
        answers::comes(v, flags, id, payload),
        ({
            ||| (kind == 0 || kind == 1 || kind == 5) && id == 0
            ||| kind == 2 && id == 0 && payload.len() == 5
            ||| kind == 3 && id == 0 && payload.len() == 4
            ||| kind == 4 && id != 0
            ||| kind == 6 && id != 0 && payload.len() == 8
            ||| kind == 7 && id != 0 && payload.len() >= 8
        }),
    ensures
        ({
            let o = model::ingested(v, server, answers::framed(kind, flags, id, payload), chances);
            &&& o.1 == Err::<(), ConnError>(ConnError::ParseError(ParseError::Protocol))
            &&& o.0.ingress.events == v.ingress.events
            &&& o.0.egress == v.egress
            &&& o.0.streams == v.streams
        }),
{
    answers::lemma_one_frame(v, server, kind, flags, id, payload, chances);
    reveal(model::settings_frame);
    reveal(model::ping_frame);
    reveal(model::goaway_frame);
    reveal(model::rst_frame);
    reveal(model::priority_frame);
    reveal(model::headers_frame);
    reveal(model::data_frame);
    reveal(model::promise_frame);
}

/// RST_STREAM and WINDOW_UPDATE on a stream that was never opened are failures; on one that is
/// over they are passed over. A peer that has reset a hundred streams may reset no more.
#[verifier::rlimit(60)]
pub proof fn law_only_open_streams_are_meant(
    v: ConnView,
    server: bool,
    id: u32,
    code: u32,
    n: u32,
    chances: Seq<Chance>,
)
    requires
        answers::waits(v),
        13 <= v.ingress.input.byte_capacity,
        1 <= id <= 0x7fff_ffff,
        1 <= n <= 0x7fff_ffff,
    ensures
        ({
            let a = model::ingested(
                v,
                server,
                answers::framed(3, 0, id as int, answers::word(code as int)),
                chances,
            );
            let b = model::ingested(
                v,
                server,
                answers::framed(8, 0, id as int, answers::word(n as int)),
                chances,
            );
            &&& never_opened(v, server, id) ==> a.1 == Err::<(), ConnError>(ConnError::Protocol)
            &&& never_opened(v, server, id) ==> b.1 == Err::<(), ConnError>(ConnError::Protocol)
            &&& !v.has_stream(id) && !never_opened(v, server, id) ==> a.1 is Ok && a.0 == v && b.1
                is Ok && b.0 == v
            &&& v.has_stream(id) && v.peer_resets == 100 ==> a.1 == Err::<(), ConnError>(
                ConnError::Overload,
            )
        }),
{
    answers::lemma_one_frame(v, server, 3, 0, id as int, answers::word(code as int), chances);
    answers::lemma_one_frame(v, server, 8, 0, id as int, answers::word(n as int), chances);
    reveal(model::rst_frame);
    reveal(model::update_frame);
    answers::lemma_word(code, Seq::empty());
    answers::lemma_word(n, Seq::empty());
    assert(answers::word(n as int) + Seq::<u8>::empty() =~= answers::word(n as int));
    assert(answers::word(code as int) + Seq::<u8>::empty() =~= answers::word(code as int));
    let a = model::ingested(
        v,
        server,
        answers::framed(3, 0, id as int, answers::word(code as int)),
        chances,
    );
    let b = model::ingested(
        v,
        server,
        answers::framed(8, 0, id as int, answers::word(n as int)),
        chances,
    );
    if !v.has_stream(id) && !never_opened(v, server, id) {
        assert(a.0 =~= v);
        assert(b.0 =~= v);
    }
}

/// HEADERS that open a stream where this end takes no more, or where it has said that it goes
/// away, are answered with RST_STREAM that says that the stream is refused. HEADERS that open a
/// stream with a number that is not the peer's to give are a failure.
#[verifier::rlimit(60)]
pub proof fn law_streams_too_many_are_refused(
    v: ConnView,
    server: bool,
    id: u32,
    end_stream: bool,
    block: Seq<u8>,
    chances: Seq<Chance>,
)
    requires
        answers::waits(v),
        answers::comes(v, 0, id as int, block),
        never_opened(v, server, id),
    ensures
        ({
            let o = model::ingested(
                v,
                server,
                answers::framed(1, 4 + wire::mark(end_stream, 1), id as int, block),
                chances,
            );
            let rst = answers::framed(3, 0, id as int, seq![0u8, 0, 0, 7]);
            let mine = v.streams.records.dom().filter(|i: u32| (i % 2 == 1) == server);
            &&& (id % 2 == 1) != server ==> o.1 == Err::<(), ConnError>(ConnError::Protocol)
            &&& (id % 2 == 1) == server ==> {
                &&& v.goaway_sent ==> answers::answers(v, o, Seq::empty(), rst)
                &&& v.streams.records.len() >= v.streams.capacity ==> answers::answers(
                    v,
                    o,
                    Seq::empty(),
                    rst,
                )
                &&& v.local.max_concurrent_streams matches Some(limit) ==> mine.len() >= limit
                    ==> answers::answers(v, o, Seq::empty(), rst)
                &&& v.goaway_sent || v.streams.records.len() >= v.streams.capacity
                    ==> o.0.streams.records == v.streams.records
            }
        }),
{
    let flags = 4 + wire::mark(end_stream, 1);
    answers::lemma_one_frame(v, server, 1, flags, id as int, block, chances);
    frame::lemma_flag_bits(end_stream, true, false);
    reveal(model::headers_frame);
    reveal(model::headers_handled);
    answers::lemma_quiet(v);
    let rst = answers::framed(3, 0, id as int, seq![0u8, 0, 0, 7]);
    assert(answers::word(7) =~= seq![0u8, 0, 0, 7]);
    wire::law_frames_have_their_bytes(
        FrameView::RstStream { stream: id, error: ErrorCode::RefusedStream },
    );
    egress::law_order_is_kept(v.egress, rst);
    let mine = v.streams.records.dom().filter(|i: u32| (i % 2 == 1) == server);
    let theirs = crate::h2::stream_registry::opened_by(v.streams.records, server, true);
    assert(mine =~= theirs) by {
        assert forall|i: u32| mine.contains(i) == theirs.contains(i) by {}
    }
}

/// A frame that is longer than this end has said it takes is a failure, as soon as its first nine
/// bytes have come.
#[verifier::rlimit(60)]
pub proof fn law_long_frames_are_refused(
    v: ConnView,
    server: bool,
    kind: int,
    flags: int,
    length: int,
    id: int,
    chances: Seq<Chance>,
)
    requires
        answers::waits(v),
        9 <= v.ingress.input.byte_capacity,
        0 <= kind < 256,
        0 <= flags < 256,
        v.local.max_frame_size < length <= 0xff_ffff,
        0 <= id <= 0x7fff_ffff,
    ensures
        ({
            let o = model::ingested(v, server, answers::octets(length, kind, flags, id), chances);
            &&& o.1 == Err::<(), ConnError>(ConnError::FrameSize)
            &&& o.0.ingress.events == v.ingress.events
            &&& o.0.egress == v.egress
        }),
{
    let f = answers::octets(length, kind, flags, id);
    let w = answers::fed(v, f);
    assert(v.ingress.input.bytes() =~= Seq::<u8>::empty());
    retained_segments::law_bytes_are_appended(v.ingress.input, f);
    assert(w.ingress.input.bytes() =~= f);
    let len = length as u32;
    assert(f.subrange(0, 3) =~= crate::bytes::wire24(len));
    crate::bytes::lemma_wire24(len, f, 0);
    assert(f[3] == kind);
    if kind <= 9 {
        let h = HeadView {
            length: len,
            kind: frame::type_of(kind as u8),
            flags: flags as u8,
            stream: id as u32,
        };
        answers::lemma_octets(h);
        frame::law_heads_round_trip(h, Seq::empty());
        assert(f + Seq::<u8>::empty() =~= f);
    }
    assert(ingress::front(f, v.local.max_frame_size) == Err::<FrontView, ConnError>(
        ConnError::FrameSize,
    ));
    assert(w.with_ingress(w.ingress) =~= w);
    assert(model::driven(w, server, chances) == (w, Err::<(), ConnError>(ConnError::FrameSize)));
}

/// Whether no whole frame stands at the start of some bytes: there are fewer than nine, or fewer
/// than the first three say.
pub open spec fn incomplete(s: Seq<u8>) -> bool {
    s.len() < 9 || s.len() < 9 + 65536 * s[0] + 256 * s[1] + s[2]
}

/// Every whole frame of the input is dealt with: when the bytes of the peer have been taken,
/// what is left is less than a frame.
pub proof fn law_no_frame_is_left(v: ConnView, server: bool, more: Seq<u8>, chances: Seq<Chance>)
    requires
        v.ingress.preface_done,
    ensures
        ({
            let o = model::ingested(v, server, more, chances);
            o.1 is Ok ==> incomplete(o.0.ingress.input.bytes())
        }),
{
    let w = answers::fed(v, more);
    assert(w.with_ingress(w.ingress) =~= w);
    lemma_all_driven(w, server, chances);
}

proof fn lemma_all_driven(v: ConnView, server: bool, chances: Seq<Chance>)
    ensures
        model::driven(v, server, chances).1 is Ok ==> incomplete(
            model::driven(v, server, chances).0.ingress.input.bytes(),
        ),
    decreases v.ingress.input.bytes().len(),
{
    let s = v.ingress.input.bytes();
    match ingress::front(s, v.local.max_frame_size) {
        Ok(FrontView::Unknown(total)) => {
            let next = v.consumed(total as int);
            retained_segments::law_taking_keeps_the_rest(v.ingress.input, total as int);
            lemma_all_driven(next, server, chances.drop_first());
        },
        Ok(FrontView::Frame(h)) => {
            let (next, result) = model::frame_handled(v, server, h, chances[0]);
            let total = HEADER_LEN + h.length;
            progress::lemma_frame_advances(v, server, h, chances[0]);
            retained_segments::law_taking_keeps_the_rest(v.ingress.input, total);
            if result is Ok {
                lemma_all_driven(next, server, chances.drop_first());
            }
        },
        _ => {},
    }
}

/// A frame that is not whole yet is waited for: nothing is told and nothing is sent.
#[verifier::rlimit(60)]
pub proof fn law_part_of_a_frame_waits(
    v: ConnView,
    server: bool,
    kind: int,
    flags: int,
    id: int,
    payload: Seq<u8>,
    n: int,
    chances: Seq<Chance>,
)
    requires
        answers::waits(v),
        answers::comes(v, flags, id, payload),
        0 <= kind < 256,
        0 < n < 9 + payload.len(),
    ensures
        ({
            let part = answers::framed(kind, flags, id, payload).take(n);
            let o = model::ingested(v, server, part, chances);
            &&& o.1 is Ok
            &&& o.0.ingress.input.bytes() == part
            &&& o.0.ingress.events == v.ingress.events
            &&& o.0.egress == v.egress
            &&& o.0.streams == v.streams
        }),
{
    let f = answers::framed(kind, flags, id, payload);
    let part = f.take(n);
    let w = answers::fed(v, part);
    assert(v.ingress.input.bytes() =~= Seq::<u8>::empty());
    retained_segments::law_bytes_are_appended(v.ingress.input, part);
    assert(w.ingress.input.bytes() =~= part);
    if n >= 9 {
        let len = payload.len() as u32;
        assert(part.subrange(0, 3) =~= crate::bytes::wire24(len));
        crate::bytes::lemma_wire24(len, part, 0);
        assert(part[3] == kind);
        if kind <= 9 {
            let h = HeadView {
                length: len,
                kind: frame::type_of(kind as u8),
                flags: flags as u8,
                stream: id as u32,
            };
            answers::lemma_octets(h);
            let rest = part.skip(9);
            frame::law_heads_round_trip(h, rest);
            assert(part =~= frame::head_wire(h) + rest);
        }
    }
    assert(ingress::front(part, v.local.max_frame_size) == Ok::<FrontView, ConnError>(
        FrontView::Wait,
    ));
    assert(w.with_ingress(w.ingress) =~= w);
    assert(model::driven(w, server, chances) == (w, Ok::<(), ConnError>(())));
}

/// The first bytes of a client are the preface: it is told once it is whole, and twenty-four bytes
/// that are anything else are refused.
pub proof fn law_the_preface_comes_first(
    v: ConnView,
    server: bool,
    first: Seq<u8>,
    chances: Seq<Chance>,
)
    requires
        model::conn_inv(v),
        !v.ingress.preface_done,
        v.ingress.input.chunks.len() == 0,
        v.ingress.input.chunk_capacity > 0,
        v.ingress.event_room(),
        0 < first.len() <= 24 <= v.ingress.input.byte_capacity,
    ensures
        ({
            let o = model::ingested(v, server, first, chances);
            let preface = seq![
                0x50u8, 0x52, 0x49, 0x20, 0x2a, 0x20, 0x48, 0x54, 0x54, 0x50, 0x2f, 0x32, 0x2e,
                0x30, 0x0d, 0x0a, 0x0d, 0x0a, 0x53, 0x4d, 0x0d, 0x0a, 0x0d, 0x0a,
            ];
            &&& first == preface ==> o.1 is Ok && o.0.ingress.preface_done
                && o.0.ingress.input.bytes().len() == 0 && o.0.ingress.events
                == v.ingress.events + seq![EventView::PrefaceComplete] && o.0.egress == v.egress
            &&& first.len() == 24 && first != preface ==> o.1 == Err::<(), ConnError>(
                ConnError::BadPreface,
            ) && !o.0.ingress.preface_done
            &&& first.len() < 24 ==> o.1 is Ok && !o.0.ingress.preface_done
                && o.0.ingress.input.bytes() == first && o.0.ingress.events == v.ingress.events
        }),
{
    wire::law_the_preface_is_fixed();
    let w = answers::fed(v, first);
    assert(v.ingress.input.bytes() =~= Seq::<u8>::empty());
    retained_segments::law_bytes_are_appended(v.ingress.input, first);
    assert(w.ingress.input.bytes() =~= first);
    if first.len() == 24 {
        assert(first.subrange(0, 24) =~= first);
        retained_segments::law_taking_keeps_the_rest(w.ingress.input, 24);
        let e = EventView::PrefaceComplete;
        assert(v.ingress.events.push(e) =~= v.ingress.events + seq![e]);
        let next = w.with_ingress(ingress::preface_accepted(w.ingress).0);
        if first == ingress::preface() {
            assert(next.ingress.input.bytes().len() == 0);
            assert(ingress::front(next.ingress.input.bytes(), next.local.max_frame_size) == Ok::<
                FrontView,
                ConnError,
            >(FrontView::Wait));
            assert(model::driven(next, server, chances) == (next, Ok::<(), ConnError>(())));
        }
    }
}

} // verus!
