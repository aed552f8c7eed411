//! What a connection sends when it is asked to, byte by byte.

use crate::h2::conn::answers;
use crate::h2::conn::laws;
use crate::h2::conn::model;
use crate::h2::conn::model::ConnView;
use crate::h2::egress;
use crate::h2::error::ConnError;
use crate::h2::flow;
use crate::h2::frame;
use crate::h2::frame::{ErrorCode, FrameView, HeadView, Type};
use crate::h2::hpack::encoder;
use crate::h2::hpack::FieldView;
use crate::h2::stream;
use crate::h2::stream::{State, StreamId};
use crate::h2::stream_registry;
use vstd::prelude::*;

verus! {

/// The smaller of two numbers.
pub open spec fn least(a: int, b: int) -> int {
    if a <= b {
        a
    } else {
        b
    }
}

/// How many bytes the windows let through on a stream.
pub open spec fn open_for(v: ConnView, id: u32) -> int {
    let a = v.send_window.value as int;
    let b = v.streams.records[id].send_window.value as int;
    if a <= 0 || b <= 0 {
        0
    } else {
        least(a, b)
    }
}

/// Whether this end may send on a stream.
pub open spec fn may_send(v: ConnView, id: u32) -> bool {
    &&& v.has_stream(id)
    &&& v.streams.records[id].stream.state is Open
        || v.streams.records[id].stream.state is HalfClosedRemote
}

/// Whether this end has said its last on a stream: the stream is gone, or only the peer may
/// still send on it.
pub open spec fn has_ended(v: ConnView, id: u32) -> bool {
    v.has_stream(id) ==> v.streams.records[id].stream.state is HalfClosedLocal
}

/// Whether `sent` was put behind what was to be sent.
pub open spec fn put(v: ConnView, next: ConnView, sent: Seq<u8>) -> bool {
    &&& next.egress.bytes == v.egress.bytes + sent
    &&& next.egress.outgoing() == v.egress.outgoing() + sent
    &&& next.egress.len() == v.egress.len() + sent.len()
    &&& next.egress.capacity == v.egress.capacity
}

#[verifier::rlimit(60)]
proof fn lemma_put(v: ConnView, next: ConnView, sent: Seq<u8>)
    requires
        model::conn_inv(v),
        next.egress.bytes == v.egress.bytes + sent,
        next.egress.payloads == v.egress.payloads,
        next.egress.capacity == v.egress.capacity,
    ensures
        put(v, next, sent),
{
    egress::law_order_is_kept(v.egress, sent);
}

/// Of a body as much is sent as both windows and one frame of the peer let through, as one DATA
/// frame with these bytes and no others; both windows are debited by it, and all other streams
/// stay as they were. The frame ends the stream if the body is asked to end it and all of it is
/// sent. While a window is closed nothing happens.
#[verifier::rlimit(60)]
pub proof fn law_bodies_go_out(v: ConnView, id: u32, body: Seq<u8>, end_stream: bool)
    requires
        model::conn_inv(v),
        may_send(v, id),
        id <= 0x7fff_ffff,
        v.egress.has_room(9 + body.len() as int),
        body.len() <= usize::MAX,
    ensures
        ({
            let n = least(least(body.len() as int, open_for(v, id)), v.peer.max_frame_size as int);
            let ends = end_stream && n == body.len();
            let (next, r) = model::data_sent(v, id, body, end_stream);
            &&& r == Ok::<usize, ConnError>(n as usize)
            &&& next.streams.records.remove(id) == v.streams.records.remove(id)
            &&& next.peer == v.peer
            &&& next.egress.encoder == v.egress.encoder
            &&& model::conn_inv(next)
            &&& n == 0 && body.len() > 0 ==> next == v
            &&& n > 0 || body.len() == 0 ==> {
                &&& put(
                    v,
                    next,
                    answers::framed(
                        0,
                        if ends {
                            1
                        } else {
                            0
                        },
                        id as int,
                        body.take(n),
                    ),
                )
                &&& next.send_window.value == v.send_window.value - n
                &&& next.has_stream(id) ==> next.streams.records[id].send_window.value
                    == v.streams.records[id].send_window.value - n
                &&& ends ==> has_ended(next, id)
                &&& !ends ==> next.has_stream(id) && next.streams.records[id].stream
                    == v.streams.records[id].stream
            }
        }),
{
    reveal(model::data_sent);
    let (next, r) = model::data_sent(v, id, body, end_stream);
    let room = flow::pair_room(v.send_window, v.streams.records[id].send_window);
    assert(room == open_for(v, id));
    assert(next.streams.records.remove(id) =~= v.streams.records.remove(id));
    if room > 0 || body.len() == 0 {
        let n = model::data_share(v, id, body.len() as int);
        let ends = end_stream && n == body.len();
        let flags: int = if ends {
            1
        } else {
            0
        };
        let h = HeadView {
            length: n as u32,
            kind: Type::Data,
            flags: flags as u8,
            stream: id,
        };
        answers::lemma_octets(h);
        let sent = egress::data_head(id, ends, n as u32) + body.subrange(0, n);
        assert(body.subrange(0, n) =~= body.take(n));
        assert(sent =~= answers::framed(0, flags, id as int, body.take(n)));
        lemma_put(v, next, sent);
        assert(next.streams.records.dom() =~= if ends && next.streams.records.dom() !~= v.streams.records.dom() {
            v.streams.records.dom().remove(id)
        } else {
            v.streams.records.dom()
        });
    }
}

/// A list of fields goes out as one block: a HEADERS frame, and CONTINUATION frames where it is
/// too long for one, in which the encoder has written the list. The first frame says whether the
/// stream ends with it.
#[verifier::rlimit(60)]
pub proof fn law_fields_go_out(v: ConnView, id: u32, list: Seq<FieldView>, end_stream: bool)
    requires
        model::conn_inv(v),
        may_send(v, id),
        1 <= id <= 0x7fff_ffff,
    ensures
        ({
            let (next, r) = model::response_sent(v, id, list, end_stream);
            let sent = next.egress.bytes.skip(v.egress.bytes.len() as int);
            &&& r is Ok ==> {
                &&& put(v, next, sent)
                &&& model::conn_inv(next)
                &&& next.peer == v.peer
                &&& sent.len() == egress::header_frames(
                    id,
                    encoder::block_wire(v.egress.encoder, list),
                    end_stream,
                    v.peer.max_frame_size as int,
                ).len()
                &&& laws::gathered(sent, id, true) == Some(
                    encoder::block_wire(v.egress.encoder, list),
                )
                &&& sent[3] == 1
                &&& sent[4] % 2 == (if end_stream {
                    1int
                } else {
                    0
                })
                &&& next.egress.encoder == encoder::after_block(v.egress.encoder, list)
                &&& end_stream ==> has_ended(next, id)
                &&& !end_stream ==> next.has_stream(id) && next.streams.records[id].stream
                    == v.streams.records[id].stream
                &&& next.send_window == v.send_window
                &&& next.streams.records.remove(id) == v.streams.records.remove(id)
                &&& next.has_stream(id) ==> next.streams.records[id].send_window
                    == v.streams.records[id].send_window
            }
            &&& r is Err ==> r == Err::<(), ConnError>(ConnError::Overload) && next.egress.bytes
                == v.egress.bytes && next.streams == v.streams
            &&& r is Ok <==> v.egress.has_room(
                egress::header_frames(
                    id,
                    encoder::block_wire(v.egress.encoder, list),
                    end_stream,
                    v.peer.max_frame_size as int,
                ).len() as int,
            )
        }),
{
    reveal(model::response_sent);
    let (next, r) = model::response_sent(v, id, list, end_stream);
    let block = encoder::block_wire(v.egress.encoder, list);
    let max = v.peer.max_frame_size as int;
    let wire = egress::header_frames(id, block, end_stream, max);
    if r is Ok {
        assert(next.egress.bytes == v.egress.bytes + wire);
        let sent = next.egress.bytes.skip(v.egress.bytes.len() as int);
        assert(sent =~= wire);
        lemma_put(v, next, wire);
        laws::law_split_blocks_come_back(id, block, end_stream, max);
        lemma_first_flags(id, block, end_stream, max);
        assert(next.streams.records.remove(id) =~= v.streams.records.remove(id));
        if !end_stream {
            assert(next.streams.records =~= v.streams.records);
        }
        assert(next.streams.records.dom() =~= if next.has_stream(id) {
            v.streams.records.dom()
        } else {
            v.streams.records.dom().remove(id)
        });
    }
}

#[verifier::rlimit(60)]
proof fn lemma_first_flags(id: u32, block: Seq<u8>, end_stream: bool, max: int)
    requires
        0 < max <= 0xff_ffff,
    ensures
        egress::header_frames(id, block, end_stream, max).len() >= 9,
        egress::header_frames(id, block, end_stream, max)[3] == 1,
        egress::header_frames(id, block, end_stream, max)[4] % 2 == (if end_stream {
            1int
        } else {
            0
        }),
{
    let whole = FrameView::Headers {
        stream: id,
        end_stream,
        end_headers: true,
        priority: None,
        fragment: block,
    };
    let part = FrameView::Headers {
        stream: id,
        end_stream,
        end_headers: false,
        priority: None,
        fragment: block.subrange(0, max),
    };
    answers::lemma_octets(frame::frame_head(whole));
    answers::lemma_octets(frame::frame_head(part));
}

/// A request opens the next stream of this end, and goes out as one block of fields on it.
#[verifier::rlimit(60)]
pub proof fn law_requests_go_out(v: ConnView, list: Seq<FieldView>, end_stream: bool)
    requires
        model::conn_inv(v),
        v.streams.next_local matches Some(id) ==> 1 <= id <= 0x7fff_ffff,
    ensures
        ({
            let (next, r) = model::request_started(v, list, end_stream);
            let sent = next.egress.bytes.skip(v.egress.bytes.len() as int);
            &&& r matches Ok(id) ==> {
                &&& v.streams.next_local == Some(id)
                &&& !v.has_stream(id)
                &&& next.streams.next_local == (if id <= 0x7fff_fffd {
                    Some((id + 2) as u32)
                } else {
                    None
                })
                &&& next.has_stream(id)
                &&& next.streams.records[id].send_window.value == v.peer.initial_window_size
                &&& next.streams.records[id].recv_window.value == v.local.initial_window_size
                &&& next.streams.records[id].stream.state == (if end_stream {
                    State::HalfClosedLocal
                } else {
                    State::Open
                })
                &&& next.streams.records.remove(id) == v.streams.records
                &&& put(v, next, sent)
                &&& laws::gathered(sent, id, true) == Some(
                    encoder::block_wire(v.egress.encoder, list),
                )
                &&& sent[4] % 2 == (if end_stream {
                    1int
                } else {
                    0
                })
                &&& model::conn_inv(next)
                &&& next.peer == v.peer
                &&& next.send_window == v.send_window
            }
            &&& r is Err ==> next.egress.bytes == v.egress.bytes
        }),
{
    reveal(model::request_started);
    let (next, r) = model::request_started(v, list, end_stream);
    if let Some(id) = v.streams.next_local {
        StreamId::lemma_id_of(stream::id_of(id), id);
        if r is Ok {
            let block = encoder::block_wire(v.egress.encoder, list);
            let max = v.peer.max_frame_size as int;
            let wire = egress::header_frames(id, block, end_stream, max);
            assert(next.egress.bytes == v.egress.bytes + wire);
            let sent = next.egress.bytes.skip(v.egress.bytes.len() as int);
            assert(sent =~= wire);
            lemma_put(v, next, wire);
            laws::law_split_blocks_come_back(id, block, end_stream, max);
            lemma_first_flags(id, block, end_stream, max);
            assert(next.streams.records.remove(id) =~= v.streams.records);
            assert(next.streams.records.dom() =~= v.streams.records.dom().insert(id));
        }
    }
}

/// When a request opens no stream: either end has said that it goes away, the numbers are used up,
/// as many streams of this end are open as the peer takes or as there is room for, or its fields
/// find no room. In no other case is it refused.
#[verifier::rlimit(60)]
pub proof fn law_requests_are_refused_for_these_reasons(
    v: ConnView,
    list: Seq<FieldView>,
    end_stream: bool,
)
    requires
        model::conn_inv(v),
    ensures
        ({
            let (next, r) = model::request_started(v, list, end_stream);
            let mine = v.streams.records.dom().filter(|i: u32| i == 0 || i % 2 == 1);
            let full = v.streams.records.len() >= v.streams.capacity || mine.len() >= usize::MAX
                || (v.peer.max_concurrent_streams matches Some(limit) && mine.len() >= limit);
            let away = v.goaway_received is Some || v.goaway_sent;
            &&& away ==> r == Err::<u32, ConnError>(ConnError::StreamGoneAway) && next == v
            &&& !away && (full || v.streams.next_local is None) ==> (r matches Err(e) && e
                == ConnError::StreamLimit) && next == v
            &&& !away && !full && (v.streams.next_local matches Some(id) && id != 0
                && !v.has_stream(id) && v.egress.has_room(
                egress::header_frames(
                    id,
                    encoder::block_wire(v.egress.encoder, list),
                    end_stream,
                    v.peer.max_frame_size as int,
                ).len() as int,
            )) ==> r is Ok
        }),
{
    reveal(model::request_started);
    let mine = v.streams.records.dom().filter(|i: u32| i == 0 || i % 2 == 1);
    let local = crate::h2::stream_registry::opened_by(v.streams.records, false, false);
    assert(mine =~= local) by {
        assert forall|i: u32| mine.contains(i) == local.contains(i) by {}
    }
    if let Some(id) = v.streams.next_local {
        if id != 0 && id <= 0x7fff_ffff {
            StreamId::lemma_id_of(stream::id_of(id), id);
        }
    }
}

/// A body that is not copied goes out like one that is: the same bytes, the same windows, the same
/// streams.
#[verifier::rlimit(60)]
pub proof fn law_shared_bodies_go_out_alike(v: ConnView, id: u32, body: Seq<u8>, end_stream: bool)
    requires
        model::conn_inv(v),
    ensures
        ({
            let (a, x) = model::data_sent(v, id, body, end_stream);
            let (b, y) = model::shared_sent(v, id, body, end_stream);
            &&& x == y
            &&& a.egress.outgoing() == b.egress.outgoing()
            &&& a.streams == b.streams
            &&& a.send_window == b.send_window
            &&& a.ingress == b.ingress
        }),
{
    reveal(model::data_sent);
    reveal(model::shared_sent);
    match model::data_planned(v, id, body.len() as int, end_stream) {
        (next, Ok(Some((n, ends)))) => {
            let head = egress::data_head(id, ends, n as u32);
            let part = body.subrange(0, n);
            assert(next.egress == v.egress);
            egress::law_order_is_kept(v.egress, head + part);
            egress::law_order_is_kept(v.egress, head);
            let w = v.egress.with(head);
            assert(egress::egress_inv(w));
            egress::law_order_is_kept(w, part);
            assert(v.egress.outgoing() + head + part =~= v.egress.outgoing() + (head + part));
        },
        _ => {},
    }
}

/// Resetting a stream tells the peer why, and the stream is gone.
#[verifier::rlimit(60)]
pub proof fn law_resets_go_out(v: ConnView, id: u32, error: ErrorCode)
    requires
        model::conn_inv(v),
        v.has_stream(id),
        v.egress.has_room(13),
    ensures
        ({
            let (next, r) = model::stream_reset(v, id, error);
            &&& r is Ok
            &&& put(
                v,
                next,
                answers::framed(
                    3,
                    0,
                    id as int,
                    answers::word(frame::error_number(error) as int),
                ),
            )
            &&& next.streams.records == v.streams.records.remove(id)
        }),
{
    reveal(model::stream_reset);
    let (next, r) = model::stream_reset(v, id, error);
    let f = FrameView::RstStream { stream: id, error };
    answers::lemma_octets(frame::frame_head(f));
    let n = frame::error_number(error);
    assert(crate::bytes::wire32(n) =~= answers::word(n as int));
    assert(frame::frame_wire(f) =~= answers::framed(3, 0, id as int, answers::word(n as int)));
    lemma_put(v, next, frame::frame_wire(f));
    assert(next.streams.records =~= v.streams.records.remove(id));
}

/// PING goes out with its eight bytes, and GOAWAY with the last stream of the peer, the reason
/// and what is to be said of it; from then on this end opens no more streams.
#[verifier::rlimit(60)]
pub proof fn law_pings_and_goaway_go_out(
    v: ConnView,
    opaque: Seq<u8>,
    error: ErrorCode,
    debug: Seq<u8>,
    list: Seq<FieldView>,
    end_stream: bool,
)
    requires
        model::conn_inv(v),
        opaque.len() == 8,
        v.egress.has_room(17 + debug.len() as int),
        debug.len() <= 1000,
    ensures
        model::pinged(v, opaque).1 is Ok,
        put(v, model::pinged(v, opaque).0, seq![0u8, 0, 8, 6, 0, 0, 0, 0, 0] + opaque),
        ({
            let (next, r) = model::went_away(v, error, debug);
            &&& r is Ok
            &&& next.goaway_sent
            &&& put(
                v,
                next,
                answers::framed(
                    7,
                    0,
                    0,
                    answers::word(v.streams.last_peer as int) + answers::word(
                        frame::error_number(error) as int,
                    ) + debug,
                ),
            )
            &&& model::request_started(next, list, end_stream).1 == Err::<u32, ConnError>(
                ConnError::StreamGoneAway,
            )
        }),
{
    reveal(model::request_started);
    let ping = FrameView::Ping { ack: false, opaque };
    answers::lemma_octets(frame::frame_head(ping));
    let p = seq![0u8, 0, 8, 6, 0, 0, 0, 0, 0] + opaque;
    assert(frame::frame_wire(ping) =~= p);
    lemma_put(v, model::pinged(v, opaque).0, p);
    let last = v.streams.last_peer;
    let n = frame::error_number(error);
    let away = FrameView::GoAway { last, error, debug };
    answers::lemma_octets(frame::frame_head(away));
    assert(crate::bytes::wire32(n) =~= answers::word(n as int));
    assert(crate::bytes::wire32(last) =~= answers::word(last as int));
    let q = answers::framed(
        7,
        0,
        0,
        answers::word(last as int) + answers::word(n as int) + debug,
    );
    assert(frame::frame_wire(away) =~= q);
    lemma_put(v, model::went_away(v, error, debug).0, q);
}

/// The numbers of the reasons on the wire.
pub proof fn law_reasons_have_their_numbers(n: u32)
    ensures
        frame::error_number(ErrorCode::NoError) == 0,
        frame::error_number(ErrorCode::ProtocolError) == 1,
        frame::error_number(ErrorCode::InternalError) == 2,
        frame::error_number(ErrorCode::FlowControl) == 3,
        frame::error_number(ErrorCode::SettingsTimeout) == 4,
        frame::error_number(ErrorCode::StreamClosed) == 5,
        frame::error_number(ErrorCode::FrameSize) == 6,
        frame::error_number(ErrorCode::RefusedStream) == 7,
        frame::error_number(ErrorCode::Cancel) == 8,
        frame::error_number(ErrorCode::Compression) == 9,
        frame::error_number(ErrorCode::Connect) == 10,
        frame::error_number(ErrorCode::EnhanceYourCalm) == 11,
        frame::error_number(ErrorCode::InadequateSecurity) == 12,
        frame::error_number(ErrorCode::Http11Required) == 13,
        n <= 13 ==> frame::error_number(frame::error_of(n)) == n,
        n > 13 ==> frame::error_of(n) is InternalError,
{
}

} // verus!
