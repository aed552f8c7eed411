//! What holds of connections as a whole.

use crate::h2::conn::model;
use crate::h2::conn::model::{Chance, ConnView, PieceView};
use crate::h2::egress;
use crate::h2::error::ConnError;
use crate::h2::event::EventView;
use crate::h2::flow;
use crate::h2::flow::Window;
use crate::h2::frame;
use crate::h2::frame::{
    ErrorCode, FrameLength, FrameView, HeadView, ParseError, SettingId, HEADER_LEN,
};
use crate::h2::hpack::dynamic_table;
use crate::h2::hpack::encoder;
use crate::h2::hpack::encoder::EncoderView;
use crate::h2::hpack::machine;
use crate::h2::hpack::FieldView;
use crate::h2::ingress;
use crate::h2::ingress::{BlockView, IngressView};
use crate::h2::settings;
use crate::h2::stream;
use crate::h2::stream::StreamId;
use crate::h2::stream_registry;
use crate::h2::validate;
use vstd::prelude::*;

verus! {

/// A block of header fields that is sent is read again: the encoder of the sender and the
/// table of the receiver are in step, and the fields keep the receiver's limits.
pub open spec fn block_arrives(e: EncoderView, v: IngressView, list: Seq<FieldView>) -> bool {
    &&& dynamic_table::table_inv(v.table)
    &&& v.table.max <= u32::MAX
    &&& v.setting <= dynamic_table::table_cap()
    &&& v.header_cap <= usize::MAX
    &&& e.table == encoder::announced(v.table, e.pending, e.reset)
    &&& e.pending matches Some(n) ==> n <= v.setting
    &&& forall|i: int| 0 <= i < list.len() ==> #[trigger] encoder::readable(list[i], e.coded)
    &&& encoder::hpack_size(list) <= v.header_cap
    &&& encoder::block_wire(e, list).len() <= v.header_cap
}

/// Reading a block gives back the fields that were sent, however the block lies in the
/// input, and leaves both tables in step.
pub proof fn law_fields_are_read_back(
    e: EncoderView,
    v: IngressView,
    list: Seq<FieldView>,
    contiguous: bool,
    request: bool,
    trailing: bool,
    place: bool,
)
    requires
        block_arrives(e, v, list),
        v.header_places.gives(place),
    ensures
        ingress::completed(
            v,
            encoder::block_wire(e, list),
            contiguous,
            request,
            trailing,
            place,
        ) == (
            IngressView {
                table: encoder::after_block(e, list).table,
                ..v.asked_for_headers(true)
            },
            Ok::<BlockView, ConnError>(
                BlockView {
                    fields: list,
                    invalid: !validate::list_valid(list, request, trailing),
                },
            ),
        ),
{
    let m = v.start();
    let block = encoder::block_wire(e, list);
    encoder::law_blocks_round_trip(e, m, list);
    machine::lemma_block_is_fed(m, block);
    let end = machine::block_at(m, block)->Ok_0;
    assert(end.out =~= list);
}

proof fn lemma_block_opens_stream(
    e: EncoderView,
    v: ConnView,
    server: bool,
    id: u32,
    list: Seq<FieldView>,
    end_stream: bool,
    contiguous: bool,
    place: bool,
)
    requires
        model::conn_inv(v),
        block_arrives(e, v.ingress, list),
        validate::list_valid(list, server, false),
        id != 0,
        stream_registry::class_of(v.streams, server, id) is Idle,
        stream_registry::peer_initiated(server, id),
        !v.goaway_sent,
        model::accepts_peer(v, server),
        v.ingress.event_room(),
        v.ingress.header_places.gives(place),
    ensures
        ({
            let piece = PieceView { bytes: encoder::block_wire(e, list), contiguous };
            let (next, result) = model::headers_handled(
                v,
                server,
                id,
                end_stream,
                true,
                piece,
                place,
            );
            &&& result is Ok
            &&& next.ingress.events == v.ingress.events.push(
                EventView::Headers { stream: id, fields: list, end_stream, trailing: false },
            )
            &&& next.ingress.table == encoder::after_block(e, list).table
        }),
{
    let opened = model::peer_opened(v, id);
    assert(opened.has_stream(id));
    assert(opened.streams.records[id] == model::opened_record(v, id));
    law_fields_are_read_back(e, v.ingress, list, contiguous, server, false, place);
    StreamId::lemma_id_of(stream::id_of(id), id);
    reveal(model::headers_handled);
    reveal(model::headers_read);
    let next = IngressView {
        table: encoder::after_block(e, list).table,
        ..v.ingress.asked_for_headers(true)
    };
    let block = BlockView { fields: list, invalid: false };
    let w = opened.with_ingress(next);
    assert(model::headers_done(w, id, block, end_stream, false).1 is Ok);
}

/// A HEADERS frame that opens a stream arrives as an event with the fields that were sent,
/// where the pool has a place for them: it has one while it has given out fewer than there are.
pub proof fn law_headers_arrive(
    e: EncoderView,
    v: ConnView,
    server: bool,
    id: u32,
    list: Seq<FieldView>,
    end_stream: bool,
    chance: Chance,
)
    requires
        model::conn_inv(v),
        block_arrives(e, v.ingress, list),
        validate::list_valid(list, server, false),
        1 <= id <= StreamId::MAX,
        stream_registry::class_of(v.streams, server, id) is Idle,
        stream_registry::peer_initiated(server, id),
        !v.goaway_sent,
        model::accepts_peer(v, server),
        v.ingress.pending is None,
        v.ingress.event_room(),
        v.ingress.header_places.gives(chance.place),
        v.egress.has_room(model::SHORT_FRAME_LEN as int),
        encoder::block_wire(e, list).len() <= FrameLength::MAX,
        ({
            let f = FrameView::Headers {
                stream: id,
                end_stream,
                end_headers: true,
                priority: None,
                fragment: encoder::block_wire(e, list),
            };
            v.ingress.input.bytes().len() >= frame::frame_wire(f).len()
                && v.ingress.input.bytes().subrange(0, frame::frame_wire(f).len() as int)
                == frame::frame_wire(f)
        }),
    ensures
        ({
            let f = FrameView::Headers {
                stream: id,
                end_stream,
                end_headers: true,
                priority: None,
                fragment: encoder::block_wire(e, list),
            };
            let (next, result) = model::frame_handled(v, server, frame::frame_head(f), chance);
            &&& frame::head_at(v.ingress.input.bytes()) == Ok::<HeadView, ParseError>(
                frame::frame_head(f),
            )
            &&& result is Ok
            &&& next.ingress.events == v.ingress.events.push(
                EventView::Headers { stream: id, fields: list, end_stream, trailing: false },
            )
            &&& next.ingress.table == encoder::after_block(e, list).table
        }),
{
    let block = encoder::block_wire(e, list);
    let f = FrameView::Headers {
        stream: id,
        end_stream,
        end_headers: true,
        priority: None,
        fragment: block,
    };
    let s = v.ingress.input.bytes();
    let n = frame::frame_wire(f).len() as int;
    let rest = s.subrange(n, s.len() as int);
    assert(s =~= frame::frame_wire(f) + rest);
    frame::lemma_front(f, rest);
    frame::lemma_flag_bits(end_stream, true, false);
    let h = frame::frame_head(f);
    let payload = model::payload_of(v, h);
    assert(payload =~= block);
    assert(block.subrange(0, block.len() as int) =~= block);
    let piece = model::piece_at(v, 0, block);
    lemma_block_opens_stream(e, v, server, id, list, end_stream, piece.contiguous, chance.place);
    reveal(model::headers_frame);
}

/// Data on an open stream arrives as an event with the bytes that were sent, where
/// the pool has a place for them: it has one while it has given out fewer than there are.
pub proof fn law_data_arrives(
    v: ConnView,
    server: bool,
    id: u32,
    payload: Seq<u8>,
    end_stream: bool,
    chance: Chance,
)
    requires
        model::conn_inv(v),
        1 <= id <= StreamId::MAX,
        v.has_stream(id),
        v.streams.records[id].stream.state is Open
            || v.streams.records[id].stream.state is HalfClosedLocal,
        payload.len() <= flow::pair_room(v.recv_window, v.streams.records[id].recv_window),
        v.recv_window.value + v.pending_release <= Window::MAX,
        v.streams.records[id].recv_window.value + v.streams.records[id].pending_release
            <= Window::MAX,
        v.ingress.pending is None,
        v.ingress.event_room(),
        v.ingress.data_places.gives(chance.place),
        v.egress.has_room(2 * model::SHORT_FRAME_LEN),
        payload.len() <= FrameLength::MAX,
        ({
            let f = FrameView::Data { stream: id, end_stream, payload };
            v.ingress.input.bytes().len() >= frame::frame_wire(f).len()
                && v.ingress.input.bytes().subrange(0, frame::frame_wire(f).len() as int)
                == frame::frame_wire(f)
        }),
    ensures
        ({
            let f = FrameView::Data { stream: id, end_stream, payload };
            let (next, result) = model::frame_handled(v, server, frame::frame_head(f), chance);
            &&& frame::head_at(v.ingress.input.bytes()) == Ok::<HeadView, ParseError>(
                frame::frame_head(f),
            )
            &&& result is Ok
            &&& next.ingress.events == v.ingress.events.push(
                EventView::Data { stream: id, data: payload, end_stream },
            )
        }),
{
    let f = FrameView::Data { stream: id, end_stream, payload };
    let s = v.ingress.input.bytes();
    let n = frame::frame_wire(f).len() as int;
    let rest = s.subrange(n, s.len() as int);
    assert(s =~= frame::frame_wire(f) + rest);
    frame::lemma_front(f, rest);
    frame::lemma_flag_bits(end_stream, false, false);
    let record = v.streams.records[id];
    flow::law_receiving_within_a_window_succeeds(
        v.recv_window.value,
        v.pending_release,
        model::threshold(v.recv_target),
        payload.len() as int,
        true,
    );
    flow::law_receiving_within_a_window_succeeds(
        record.recv_window.value,
        record.pending_release,
        model::threshold(v.local.initial_window_size),
        payload.len() as int,
        true,
    );
    reveal(model::data_handled);
    reveal(model::data_frame);
    let w = v.with_ingress(v.ingress.asked_for_data(true)).consumed(
        HEADER_LEN + frame::frame_head(f).length,
    );
    assert(model::data_received(w, id, end_stream, payload).1 is Ok);
}

/// What is written as the header of a DATA frame and its body is that DATA frame.
pub proof fn law_data_is_framed(id: u32, end_stream: bool, body: Seq<u8>)
    requires
        body.len() <= FrameLength::MAX,
    ensures
        egress::data_head(id, end_stream, body.len() as u32) + body == frame::frame_wire(
            FrameView::Data { stream: id, end_stream, payload: body },
        ),
{
}

/// Sending never exceeds a window or the peer's frame size, and debits both windows by what
/// was sent.
pub proof fn law_sending_keeps_the_windows(v: ConnView, id: u32, len: int, end_stream: bool)
    requires
        model::conn_inv(v),
        len >= 0,
        model::data_planned(v, id, len, end_stream).1 matches Ok(Some(_)),
    ensures
        model::data_planned(v, id, len, end_stream).1 matches Ok(Some((n, ends))) && 0 <= n <= len
            && n <= v.send_window.room() && n <= v.streams.records[id].send_window.room() && n
            <= v.peer.max_frame_size && model::data_planned(
            v,
            id,
            len,
            end_stream,
        ).0.send_window.value == v.send_window.value - n && (ends ==> n == len),
{
}

/// A stream that the peer may not open is answered with RST_STREAM, and nothing of it is
/// kept or delivered.
pub proof fn law_refused_streams_are_answered(
    v: ConnView,
    server: bool,
    id: u32,
    end_stream: bool,
    end_headers: bool,
    piece: PieceView,
    place: bool,
)
    requires
        id != 0,
        stream_registry::class_of(v.streams, server, id) is Idle,
        stream_registry::peer_initiated(server, id),
        v.goaway_sent || !model::accepts_peer(v, server),
        v.egress.has_room(model::SHORT_FRAME_LEN as int),
    ensures
        ({
            let (next, result) = model::headers_handled(
                v,
                server,
                id,
                end_stream,
                end_headers,
                piece,
                place,
            );
            &&& result is Ok
            &&& next.egress == v.egress.with(
                frame::frame_wire(
                    FrameView::RstStream { stream: id, error: ErrorCode::RefusedStream },
                ),
            )
            &&& next.streams.records == v.streams.records
            &&& next.ingress == v.ingress
        }),
{
    reveal(model::headers_handled);
}

/// Frames on a stream that this end has reset are answered with RST_STREAM and go no
/// further; the place of their data is free again.
pub proof fn law_reset_streams_stay_silent(
    v: ConnView,
    server: bool,
    id: u32,
    end_stream: bool,
    data: Seq<u8>,
)
    requires
        id != 0,
        stream_registry::class_of(v.streams, server, id) is ClosedRst,
        v.egress.has_room(model::SHORT_FRAME_LEN as int),
    ensures
        model::data_handled(v, server, id, end_stream, data) == (
            model::data_dropped(v).sending(
                FrameView::RstStream { stream: id, error: ErrorCode::StreamClosed },
            ),
            Ok::<(), ConnError>(()),
        ),
{
    reveal(model::data_handled);
}

/// While no event finds room, a frame that brings one stays where it is.
pub proof fn law_no_event_is_lost(v: ConnView, server: bool, h: HeadView, chance: Chance)
    requires
        model::brings_event(h),
        !v.ingress.event_room(),
    ensures
        model::frame_handled(v, server, h, chance).1 is Err,
        model::frame_handled(v, server, h, chance).0 == v,
{
}

/// New settings of the peer move the window of every stream by the same amount.
pub proof fn law_settings_move_every_window(
    v: ConnView,
    params: Seq<(Option<SettingId>, u32)>,
    total: int,
    order: Seq<u32>,
    id: u32,
)
    requires
        model::conn_inv(v),
        model::settings_applied(v, params, total, order).1 is Ok,
        v.has_stream(id),
    ensures
        ({
            let next = model::settings_applied(v, params, total, order).0;
            &&& next.has_stream(id)
            &&& next.streams.records[id].send_window.value - v.streams.records[id].send_window.value
                == next.peer.initial_window_size - v.peer.initial_window_size
            &&& settings::applied_all(v.peer, params) == Ok::<settings::Settings, ConnError>(
                next.peer,
            )
        }),
{
    assert(v.streams.records.contains_key(id));
}

/// The frame at the start of `s`.
#[verifier::opaque]
pub open spec fn first_frame(s: Seq<u8>) -> Result<(FrameView, nat), ParseError> {
    frame::frame_at(s)
}

proof fn lemma_first_frame(f: FrameView, wire: Seq<u8>, rest: Seq<u8>)
    requires
        frame::frame_fits(f),
        wire == frame::frame_wire(f),
    ensures
        first_frame(wire + rest) == Ok::<(FrameView, nat), ParseError>((f, wire.len())),
        wire.len() >= HEADER_LEN,
        (wire + rest).subrange(wire.len() as int, (wire + rest).len() as int) == rest,
{
    reveal(first_frame);
    frame::law_frames_round_trip(f, rest);
    frame::lemma_front(f, rest);
    assert((wire + rest).subrange(wire.len() as int, (wire + rest).len() as int) =~= rest);
}

/// The fragments of a block, read from its frames one by one; `open` says whether the frame
/// that starts the block is still to come.
pub open spec fn gathered(s: Seq<u8>, id: u32, open: bool) -> Option<Seq<u8>>
    decreases s.len(),
{
    match first_frame(s) {
        Ok((FrameView::Headers { stream, end_stream, end_headers, priority, fragment }, n)) => {
            if !open || stream != id || !(1 <= n <= s.len()) {
                None
            } else if end_headers {
                if n == s.len() {
                    Some(fragment)
                } else {
                    None
                }
            } else {
                match gathered(s.subrange(n as int, s.len() as int), id, false) {
                    Some(rest) => Some(fragment + rest),
                    None => None,
                }
            }
        },
        Ok((FrameView::Continuation { stream, end_headers, fragment }, n)) => {
            if open || stream != id || !(1 <= n <= s.len()) {
                None
            } else if end_headers {
                if n == s.len() {
                    Some(fragment)
                } else {
                    None
                }
            } else {
                match gathered(s.subrange(n as int, s.len() as int), id, false) {
                    Some(rest) => Some(fragment + rest),
                    None => None,
                }
            }
        },
        _ => None,
    }
}

proof fn lemma_continuations_gathered(id: u32, rest: Seq<u8>, max_frame: int)
    requires
        1 <= id <= StreamId::MAX,
        0 < max_frame <= FrameLength::MAX,
    ensures
        gathered(egress::continuation_frames(id, rest, max_frame), id, false) == Some(rest),
    decreases rest.len(),
{
    if rest.len() <= max_frame {
        lemma_last_gathered(
            FrameView::Continuation { stream: id, end_headers: true, fragment: rest },
            id,
            false,
            rest,
        );
    } else {
        let head = rest.subrange(0, max_frame);
        let tail = rest.subrange(max_frame, rest.len() as int);
        lemma_continuations_gathered(id, tail, max_frame);
        lemma_more_gathered(
            FrameView::Continuation { stream: id, end_headers: false, fragment: head },
            egress::continuation_frames(id, tail, max_frame),
            id,
            false,
            head,
            tail,
        );
        assert(head + tail =~= rest);
    }
}

proof fn lemma_last_gathered(f: FrameView, id: u32, open: bool, fragment: Seq<u8>)
    requires
        frame::frame_fits(f),
        match f {
            FrameView::Headers { stream, end_stream, end_headers, priority, fragment: part } => {
                open && stream == id && end_headers && part == fragment
            },
            FrameView::Continuation { stream, end_headers, fragment: part } => {
                !open && stream == id && end_headers && part == fragment
            },
            _ => false,
        },
    ensures
        gathered(frame::frame_wire(f), id, open) == Some(fragment),
{
    let wire = frame::frame_wire(f);
    lemma_first_frame(f, wire, Seq::empty());
    assert(wire + Seq::<u8>::empty() =~= wire);
}

proof fn lemma_more_gathered(
    f: FrameView,
    more: Seq<u8>,
    id: u32,
    open: bool,
    head: Seq<u8>,
    tail: Seq<u8>,
)
    requires
        frame::frame_fits(f),
        match f {
            FrameView::Headers { stream, end_stream, end_headers, priority, fragment: part } => {
                open && stream == id && !end_headers && part == head
            },
            FrameView::Continuation { stream, end_headers, fragment: part } => {
                !open && stream == id && !end_headers && part == head
            },
            _ => false,
        },
        gathered(more, id, false) == Some(tail),
    ensures
        gathered(frame::frame_wire(f) + more, id, open) == Some(head + tail),
{
    lemma_first_frame(f, frame::frame_wire(f), more);
}

/// A block of header fields comes back whole from the frames that it was split into, each of
/// which keeps the peer's limit.
pub proof fn law_split_blocks_come_back(
    id: u32,
    block: Seq<u8>,
    end_stream: bool,
    max_frame: int,
)
    requires
        1 <= id <= StreamId::MAX,
        0 < max_frame <= FrameLength::MAX,
    ensures
        gathered(egress::header_frames(id, block, end_stream, max_frame), id, true) == Some(block),
{
    if block.len() <= max_frame {
        lemma_last_gathered(
            FrameView::Headers {
                stream: id,
                end_stream,
                end_headers: true,
                priority: None,
                fragment: block,
            },
            id,
            true,
            block,
        );
    } else {
        let head = block.subrange(0, max_frame);
        let tail = block.subrange(max_frame, block.len() as int);
        lemma_continuations_gathered(id, tail, max_frame);
        lemma_more_gathered(
            FrameView::Headers {
                stream: id,
                end_stream,
                end_headers: false,
                priority: None,
                fragment: head,
            },
            egress::continuation_frames(id, tail, max_frame),
            id,
            true,
            head,
            tail,
        );
        assert(head + tail =~= block);
    }
}

} // verus!
