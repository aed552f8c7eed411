//! How a connection gets on: frames are used up from the front of the input, events come only
//! from frames that were used up, and the first frames find places in the pools.

use crate::collections::Supply;
use crate::h2::config::ValidatedView;
use crate::h2::conn::model;
use crate::h2::conn::model::{Chance, ConnView, Outcome, PieceView};
use crate::h2::conn::places;
use crate::h2::error::ConnError;
use crate::h2::event;
use crate::h2::event::EventView;
use crate::h2::frame;
use crate::h2::frame::{HeadView, Type, HEADER_LEN};
use crate::h2::ingress;
use crate::h2::ingress::{BlockView, FrontView, PendingView};
use crate::h2::retained_segments;
use vstd::prelude::*;

verus! {

/// A pool has given out one more place at most.
pub open spec fn one_more(before: Supply, after: Supply) -> bool {
    after.limit == before.limit && after.out <= before.out + 1
}

/// Each pool has given out one more place at most.
pub open spec fn few_places(v: ConnView, next: ConnView) -> bool {
    &&& one_more(v.ingress.data_places, next.ingress.data_places)
    &&& one_more(v.ingress.header_places, next.ingress.header_places)
}

/// Nothing of the input was used, and a failure brings no event.
pub open spec fn quiet(v: ConnView, o: Outcome) -> bool {
    &&& few_places(v, o.0)
    &&& o.0.ingress.input == v.ingress.input
    &&& o.1 is Err ==> o.0.ingress.events == v.ingress.events
}

/// A frame of `total` bytes was used up, or there was a failure, which brings no event.
pub open spec fn advances(v: ConnView, o: Outcome, total: int) -> bool {
    &&& few_places(v, o.0)
    &&& o.0.ingress.input == v.ingress.input || o.0.ingress.input == v.ingress.input.without(total)
    &&& o.1 is Ok ==> o.0.ingress.input == v.ingress.input.without(total)
    &&& o.1 is Err ==> o.0.ingress.events == v.ingress.events
}

/// Whether a block that was read is not counted any more, but with the event that brings it.
pub open spec fn lets_go(v: ConnView, o: Outcome) -> bool {
    &&& places::lent_data(o.0.ingress) == places::lent_data(v.ingress)
    &&& places::lent_headers(o.0.ingress) == places::lent_headers(v.ingress) - 1
}

proof fn lemma_headers_done(v: ConnView, id: u32, block: BlockView, end_stream: bool, trailing: bool)
    ensures
        quiet(v, model::headers_done(v, id, block, end_stream, trailing)),
        lets_go(v, model::headers_done(v, id, block, end_stream, trailing)),
{
    places::lemma_one_more_event(v.ingress.events);
}

proof fn lemma_promise_done(
    v: ConnView,
    server: bool,
    id: u32,
    promised: u32,
    block: BlockView,
    in_parts: bool,
)
    ensures
        quiet(v, model::promise_done(v, server, id, promised, block, in_parts)),
        lets_go(v, model::promise_done(v, server, id, promised, block, in_parts)),
{
    places::lemma_one_more_event(v.ingress.events);
}

/// What reading a block does to the pools.
proof fn lemma_block_places(
    v: ingress::IngressView,
    s: Seq<u8>,
    contiguous: bool,
    request: bool,
    trailing: bool,
    place: bool,
)
    ensures
        ({
            let (next, r) = ingress::completed(v, s, contiguous, request, trailing, place);
            block_read(v, next, r is Ok) && next.active == v.active
        }),
        ({
            let (next, r) = ingress::begun(v, s, request, trailing, place);
            &&& block_read(v, next, r is Ok)
            &&& r is Ok ==> v.active is None && next.active is Some
            &&& r is Err ==> next.active == v.active
        }),
{
}

/// Whether a place for header fields was taken if the block was read, and nothing else has come
/// or gone.
pub open spec fn block_read(
    v: ingress::IngressView,
    next: ingress::IngressView,
    read: bool,
) -> bool {
    &&& next.input == v.input
    &&& next.events == v.events
    &&& next.data_places == v.data_places
    &&& next.header_places == v.header_places.asked(read)
}

#[verifier::spinoff_prover]
#[verifier::rlimit(40)]
proof fn lemma_headers_read(
    v: ConnView,
    server: bool,
    id: u32,
    end_stream: bool,
    end_headers: bool,
    piece: PieceView,
    place: bool,
)
    ensures
        quiet(v, model::headers_read(v, server, id, end_stream, end_headers, piece, place)),
        places::squared(
            v,
            model::headers_read(v, server, id, end_stream, end_headers, piece, place),
        ),
{
    reveal(model::headers_read);
    let trailing = v.has_stream(id) && v.streams.records[id].stream.peer_headers_received;
    lemma_block_places(v.ingress, piece.bytes, piece.contiguous, server, trailing, place);
    match ingress::completed(v.ingress, piece.bytes, piece.contiguous, server, trailing, place) {
        (next, Ok(block)) => lemma_headers_done(
            v.with_ingress(next),
            id,
            block,
            end_stream,
            trailing,
        ),
        _ => {},
    }
}

pub proof fn lemma_headers_handled(
    v: ConnView,
    server: bool,
    id: u32,
    end_stream: bool,
    end_headers: bool,
    piece: PieceView,
    place: bool,
)
    ensures
        quiet(v, model::headers_handled(v, server, id, end_stream, end_headers, piece, place)),
        places::squared(
            v,
            model::headers_handled(v, server, id, end_stream, end_headers, piece, place),
        ),
{
    reveal(model::headers_handled);
    lemma_headers_read(v, server, id, end_stream, end_headers, piece, place);
    lemma_headers_read(
        model::peer_opened(v, id),
        server,
        id,
        end_stream,
        end_headers,
        piece,
        place,
    );
}

proof fn lemma_promise_handled(
    v: ConnView,
    server: bool,
    id: u32,
    promised: u32,
    end_headers: bool,
    piece: PieceView,
    place: bool,
)
    ensures
        quiet(v, model::promise_handled(v, server, id, promised, end_headers, piece, place)),
        places::squared(
            v,
            model::promise_handled(v, server, id, promised, end_headers, piece, place),
        ),
{
    reveal(model::promise_handled);
    match ingress::completed(v.ingress, piece.bytes, piece.contiguous, true, false, place) {
        (next, Ok(block)) => lemma_promise_done(
            v.with_ingress(next),
            server,
            id,
            promised,
            block,
            false,
        ),
        _ => {},
    }
}

proof fn lemma_block_finished(v: ConnView, server: bool, pending: PendingView)
    ensures
        quiet(v, model::block_finished(v, server, pending)),
        v.ingress.active is Some ==> places::squared(v, model::block_finished(v, server, pending)),
{
    let (next, result) = ingress::finished(v.ingress);
    let w = v.with_ingress(ingress::IngressView { pending: None, ..next });
    if let Ok(block) = result {
        match pending.kind {
            ingress::PendingKindView::Headers { end_stream, trailing } => lemma_headers_done(
                w,
                pending.stream,
                block,
                end_stream,
                trailing,
            ),
            ingress::PendingKindView::PushPromise { promised } => lemma_promise_done(
                w,
                server,
                pending.stream,
                promised,
                block,
                true,
            ),
        }
    }
}

proof fn lemma_continuation_handled(
    v: ConnView,
    server: bool,
    id: u32,
    end_headers: bool,
    fragment: Seq<u8>,
)
    ensures
        quiet(v, model::continuation_handled(v, server, id, end_headers, fragment)),
        places::squared(v, model::continuation_handled(v, server, id, end_headers, fragment)),
{
    reveal(model::continuation_handled);
    if let Some(pending) = v.ingress.pending {
        let c = model::counted(v, pending);
        let (next, result) = ingress::continued(c.ingress, fragment);
        lemma_block_finished(c.with_ingress(next), server, pending);
    }
}

/// Whether data is noted as an event, or given up with its place.
pub open spec fn data_settled(v: ConnView, o: Outcome) -> bool {
    &&& o.0.ingress == v.ingress.data_back() || (o.1 is Ok && exists|e: EventView|
        event::holds_data(e) && o.0.ingress == #[trigger] v.ingress.with_event(e))
}

#[verifier::spinoff_prover]
proof fn lemma_data_received(v: ConnView, id: u32, end_stream: bool, data: Seq<u8>)
    ensures
        data_settled(v, model::data_received(v, id, end_stream, data)),
{
    let e = EventView::Data { stream: id, data, end_stream };
    let _ = v.ingress.with_event(e);
    assert(event::holds_data(e));
}

proof fn lemma_data_handled(v: ConnView, server: bool, id: u32, end_stream: bool, data: Seq<u8>)
    ensures
        data_settled(v, model::data_handled(v, server, id, end_stream, data)),
        places::lent_data(model::data_handled(v, server, id, end_stream, data).0.ingress)
            == places::lent_data(v.ingress) - 1,
        places::lent_headers(model::data_handled(v, server, id, end_stream, data).0.ingress)
            == places::lent_headers(v.ingress),
{
    assert(data_settled(v, model::data_handled(v, server, id, end_stream, data))) by {
        reveal(model::data_handled);
        lemma_data_received(v, id, end_stream, data);
    }
    places::lemma_one_more_event(v.ingress.events);
}

proof fn lemma_headers_frame(
    v: ConnView,
    server: bool,
    h: HeadView,
    payload: Seq<u8>,
    place: bool,
)
    ensures
        advances(v, model::headers_frame(v, server, h, payload, place), HEADER_LEN + h.length),
        places::squared(v, model::headers_frame(v, server, h, payload, place)),
{
    reveal(model::headers_frame);
    if let Some(s) = frame::unpadded(h.flags, payload) {
        let skip: int = if frame::flag(h.flags, frame::Flags::PRIORITY) {
            5
        } else {
            0
        };
        lemma_headers_handled(
            v,
            server,
            h.stream,
            frame::flag(h.flags, frame::Flags::END_STREAM),
            frame::flag(h.flags, frame::Flags::END_HEADERS),
            model::piece_at(v, model::pad_len(h.flags) + skip, s.subrange(skip, s.len() as int)),
            place,
        );
    }
}

proof fn lemma_promise_frame(
    v: ConnView,
    server: bool,
    h: HeadView,
    payload: Seq<u8>,
    place: bool,
)
    ensures
        advances(v, model::promise_frame(v, server, h, payload, place), HEADER_LEN + h.length),
        places::squared(v, model::promise_frame(v, server, h, payload, place)),
{
    reveal(model::promise_frame);
    if let Some(s) = frame::unpadded(h.flags, payload) {
        lemma_promise_handled(
            v,
            server,
            h.stream,
            (crate::bytes::be32(s, 0) % 0x8000_0000) as u32,
            frame::flag(h.flags, frame::Flags::END_HEADERS),
            model::piece_at(v, model::pad_len(h.flags) + 4, s.subrange(4, s.len() as int)),
            place,
        );
    }
}

proof fn lemma_continuation_frame(v: ConnView, server: bool, h: HeadView, payload: Seq<u8>)
    ensures
        advances(v, model::continuation_frame(v, server, h, payload), HEADER_LEN + h.length),
        places::squared(v, model::continuation_frame(v, server, h, payload)),
{
    reveal(model::continuation_frame);
    lemma_continuation_handled(
        v,
        server,
        h.stream,
        frame::flag(h.flags, frame::Flags::END_HEADERS),
        payload,
    );
}

proof fn lemma_data_frame(v: ConnView, server: bool, h: HeadView, payload: Seq<u8>, place: bool)
    ensures
        advances(v, model::data_frame(v, server, h, payload, place), HEADER_LEN + h.length),
        places::squared(v, model::data_frame(v, server, h, payload, place)),
{
    reveal(model::data_frame);
    if let Some(s) = frame::unpadded(h.flags, payload) {
        lemma_data_handled(
            v.with_ingress(v.ingress.asked_for_data(true)).consumed(HEADER_LEN + h.length),
            server,
            h.stream,
            frame::flag(h.flags, frame::Flags::END_STREAM),
            s,
        );
    }
}

proof fn lemma_stream_frames(v: ConnView, server: bool, h: HeadView, payload: Seq<u8>)
    ensures
        advances(v, model::update_frame(v, server, h, payload), HEADER_LEN + h.length),
        places::squared(v, model::update_frame(v, server, h, payload)),
        advances(v, model::rst_frame(v, server, h, payload), HEADER_LEN + h.length),
        places::squared(v, model::rst_frame(v, server, h, payload)),
        advances(v, model::priority_frame(v, h, payload), HEADER_LEN + h.length),
        places::squared(v, model::priority_frame(v, h, payload)),
{
    places::lemma_one_more_event(v.ingress.events);
    reveal(model::update_frame);
    reveal(model::rst_frame);
    reveal(model::priority_frame);
}

proof fn lemma_connection_frames(
    v: ConnView,
    h: HeadView,
    payload: Seq<u8>,
    place: bool,
    order: Seq<u32>,
)
    ensures
        advances(v, model::settings_frame(v, h, payload, order), HEADER_LEN + h.length),
        places::squared(v, model::settings_frame(v, h, payload, order)),
        advances(v, model::ping_frame(v, h, payload), HEADER_LEN + h.length),
        places::squared(v, model::ping_frame(v, h, payload)),
        advances(v, model::goaway_frame(v, h, payload, place), HEADER_LEN + h.length),
        places::squared(v, model::goaway_frame(v, h, payload, place)),
{
    places::lemma_one_more_event(v.ingress.events);
    reveal(model::settings_frame);
    reveal(model::ping_frame);
    reveal(model::goaway_frame);
}

pub proof fn lemma_frame_advances(
    v: ConnView,
    server: bool,
    h: HeadView,
    chance: Chance,
)
    ensures
        advances(v, model::frame_handled(v, server, h, chance), HEADER_LEN + h.length),
        places::squared(v, model::frame_handled(v, server, h, chance)),
{
    let place = chance.place;
    let payload = model::payload_of(v, h);
    lemma_headers_frame(v, server, h, payload, place);
    lemma_promise_frame(v, server, h, payload, place);
    lemma_continuation_frame(v, server, h, payload);
    lemma_data_frame(v, server, h, payload, place);
    lemma_stream_frames(v, server, h, payload);
    lemma_connection_frames(v, h, payload, place, chance.order);
}

/// The input only gets shorter, and while it does not, no event comes.
pub open spec fn gets_on(v: ConnView, next: ConnView) -> bool {
    let before = v.ingress.input.bytes().len();
    let after = next.ingress.input.bytes().len();
    after <= before && (after == before ==> next.ingress.events == v.ingress.events)
}

proof fn lemma_front_fits(s: Seq<u8>, max: u32)
    ensures
        ingress::front(s, max) matches Ok(FrontView::Unknown(total)) ==> 0 < total <= s.len(),
        ingress::front(s, max) matches Ok(FrontView::Frame(h)) ==> HEADER_LEN + h.length <= s.len(),
{
}

proof fn lemma_driven_gets_on(v: ConnView, server: bool, chances: Seq<Chance>)
    ensures
        gets_on(v, model::driven(v, server, chances).0),
    decreases v.ingress.input.bytes().len(),
{
    let s = v.ingress.input.bytes();
    lemma_front_fits(s, v.local.max_frame_size);
    match ingress::front(s, v.local.max_frame_size) {
        Ok(FrontView::Unknown(total)) => {
            let next = v.consumed(total as int);
            retained_segments::law_taking_keeps_the_rest(v.ingress.input, total as int);
            lemma_driven_gets_on(next, server, chances.drop_first());
        },
        Ok(FrontView::Frame(h)) => {
            let (next, result) = model::frame_handled(v, server, h, chances[0]);
            let total = HEADER_LEN + h.length;
            lemma_frame_advances(v, server, h, chances[0]);
            retained_segments::law_taking_keeps_the_rest(v.ingress.input, total);
            if result is Ok {
                lemma_driven_gets_on(next, server, chances.drop_first());
            }
        },
        _ => {},
    }
}

proof fn lemma_driven_squares(v: ConnView, server: bool, chances: Seq<Chance>)
    ensures
        places::squared(v, model::driven(v, server, chances)),
    decreases v.ingress.input.bytes().len(),
{
    let s = v.ingress.input.bytes();
    lemma_front_fits(s, v.local.max_frame_size);
    match ingress::front(s, v.local.max_frame_size) {
        Ok(FrontView::Unknown(total)) => {
            let next = v.consumed(total as int);
            retained_segments::law_taking_keeps_the_rest(v.ingress.input, total as int);
            lemma_driven_squares(next, server, chances.drop_first());
        },
        Ok(FrontView::Frame(h)) => {
            let (next, result) = model::frame_handled(v, server, h, chances[0]);
            let total = HEADER_LEN + h.length;
            lemma_frame_advances(v, server, h, chances[0]);
            retained_segments::law_taking_keeps_the_rest(v.ingress.input, total);
            if result is Ok {
                lemma_driven_squares(next, server, chances.drop_first());
            }
        },
        _ => {},
    }
}

/// Whatever comes in and whatever becomes of it, a place is out only with an event that waits,
/// with the block that is being read, or with whoever took an event: a frame that fails or
/// brings no event leaves no place behind.
pub proof fn law_no_place_is_lost(
    v: ConnView,
    server: bool,
    bytes: Seq<u8>,
    chances: Seq<Chance>,
)
    ensures
        places::squared(v, model::resumed(v, server, chances)),
        places::squared(v, model::ingested(v, server, bytes, chances)),
{
    let w = v.with_ingress(
        ingress::IngressView { input: v.ingress.input.with(bytes), ..v.ingress },
    );
    let (next, _) = ingress::preface_accepted(v.ingress);
    let (later, _) = ingress::preface_accepted(w.ingress);
    places::lemma_one_more_event(v.ingress.events);
    lemma_driven_squares(v.with_ingress(next), server, chances);
    lemma_driven_squares(w.with_ingress(later), server, chances);
}

/// Every event comes from bytes that were used up: whatever the pools answer, a connection
/// that uses none of its input brings no event.
pub proof fn law_events_cost_input(v: ConnView, server: bool, chances: Seq<Chance>)
    ensures
        gets_on(v, model::resumed(v, server, chances).0),
{
    let s = v.ingress.input.bytes();
    let (next, result) = ingress::preface_accepted(v.ingress);
    if result == Ok::<bool, ConnError>(true) {
        if !v.ingress.preface_done {
            retained_segments::law_taking_keeps_the_rest(
                v.ingress.input,
                ingress::PREFACE_LEN as int,
            );
        }
        lemma_driven_gets_on(v.with_ingress(next), server, chances);
    }
}

proof fn lemma_sure_block(
    v: ingress::IngressView,
    s: Seq<u8>,
    contiguous: bool,
    request: bool,
    trailing: bool,
    a: bool,
    b: bool,
)
    requires
        v.header_places.left() > 0,
    ensures
        ingress::completed(v, s, contiguous, request, trailing, a) == ingress::completed(
            v,
            s,
            contiguous,
            request,
            trailing,
            b,
        ),
        ingress::begun(v, s, request, trailing, a) == ingress::begun(v, s, request, trailing, b),
{
    assert(v.header_places.gives(a) && v.header_places.gives(b));
}

proof fn lemma_sure_headers(
    v: ConnView,
    server: bool,
    id: u32,
    end_stream: bool,
    end_headers: bool,
    piece: PieceView,
    a: bool,
    b: bool,
)
    requires
        v.ingress.header_places.left() > 0,
    ensures
        model::headers_handled(v, server, id, end_stream, end_headers, piece, a)
            == model::headers_handled(v, server, id, end_stream, end_headers, piece, b),
{
    let w = model::peer_opened(v, id);
    assert(model::headers_read(v, server, id, end_stream, end_headers, piece, a)
        == model::headers_read(v, server, id, end_stream, end_headers, piece, b)) by {
        reveal(model::headers_read);
        let trailing = v.has_stream(id) && v.streams.records[id].stream.peer_headers_received;
        lemma_sure_block(v.ingress, piece.bytes, piece.contiguous, server, trailing, a, b);
    }
    assert(model::headers_read(w, server, id, end_stream, end_headers, piece, a)
        == model::headers_read(w, server, id, end_stream, end_headers, piece, b)) by {
        reveal(model::headers_read);
        let trailing = w.has_stream(id) && w.streams.records[id].stream.peer_headers_received;
        lemma_sure_block(w.ingress, piece.bytes, piece.contiguous, server, trailing, a, b);
    }
    reveal(model::headers_handled);
}

proof fn lemma_sure_promise(
    v: ConnView,
    server: bool,
    id: u32,
    promised: u32,
    end_headers: bool,
    piece: PieceView,
    a: bool,
    b: bool,
)
    requires
        v.ingress.header_places.left() > 0,
    ensures
        model::promise_handled(v, server, id, promised, end_headers, piece, a)
            == model::promise_handled(v, server, id, promised, end_headers, piece, b),
{
    lemma_sure_block(v.ingress, piece.bytes, piece.contiguous, true, false, a, b);
    reveal(model::promise_handled);
}

/// While both pools are sure to give a place, it does not matter what they would answer
/// afterwards.
proof fn lemma_sure_place(v: ConnView, server: bool, h: HeadView, a: Chance, b: Chance)
    requires
        v.ingress.data_places.left() > 0,
        v.ingress.header_places.left() > 0,
        a.order == b.order,
    ensures
        model::frame_handled(v, server, h, a) == model::frame_handled(v, server, h, b),
{
    let payload = model::payload_of(v, h);
    match h.kind {
        Type::Headers => {
            reveal(model::headers_frame);
            if let Some(s) = frame::unpadded(h.flags, payload) {
                let skip: int = if frame::flag(h.flags, frame::Flags::PRIORITY) {
                    5
                } else {
                    0
                };
                let rest = s.subrange(skip, s.len() as int);
                lemma_sure_headers(
                    v,
                    server,
                    h.stream,
                    frame::flag(h.flags, frame::Flags::END_STREAM),
                    frame::flag(h.flags, frame::Flags::END_HEADERS),
                    model::piece_at(v, model::pad_len(h.flags) + skip, rest),
                    a.place,
                    b.place,
                );
            }
        },
        Type::PushPromise => {
            reveal(model::promise_frame);
            if let Some(s) = frame::unpadded(h.flags, payload) {
                lemma_sure_promise(
                    v,
                    server,
                    h.stream,
                    (crate::bytes::be32(s, 0) % 0x8000_0000) as u32,
                    frame::flag(h.flags, frame::Flags::END_HEADERS),
                    model::piece_at(v, model::pad_len(h.flags) + 4, s.subrange(4, s.len() as int)),
                    a.place,
                    b.place,
                );
            }
        },
        Type::Data => {
            reveal(model::data_frame);
        },
        Type::GoAway => {
            reveal(model::goaway_frame);
        },
        _ => {},
    }
}

/// Whether two accounts of what is left open tell of `len` bytes of frames, and differ in what
/// the pools answer alone.
pub open spec fn places_apart(a: Seq<Chance>, b: Seq<Chance>, len: nat) -> bool {
    &&& a.len() == b.len()
    &&& len <= HEADER_LEN * a.len()
    &&& forall|i: int| 0 <= i < a.len() ==> (#[trigger] a[i]).order == b[i].order
}

/// Whether both pools are sure to give a place to each frame of `len` bytes.
pub open spec fn places_enough(v: ConnView, len: nat) -> bool {
    &&& len <= HEADER_LEN * v.ingress.data_places.left()
    &&& len <= HEADER_LEN * v.ingress.header_places.left()
}

proof fn lemma_driven_finds_places(v: ConnView, server: bool, a: Seq<Chance>, b: Seq<Chance>)
    requires
        places_apart(a, b, v.ingress.input.bytes().len()),
        places_enough(v, v.ingress.input.bytes().len()),
    ensures
        model::driven(v, server, a) == model::driven(v, server, b),
    decreases v.ingress.input.bytes().len(),
{
    let s = v.ingress.input.bytes();
    lemma_front_fits(s, v.local.max_frame_size);
    match ingress::front(s, v.local.max_frame_size) {
        Ok(FrontView::Unknown(total)) => {
            let next = v.consumed(total as int);
            retained_segments::law_taking_keeps_the_rest(v.ingress.input, total as int);
            lemma_driven_finds_places(next, server, a.drop_first(), b.drop_first());
        },
        Ok(FrontView::Frame(h)) => {
            let (next, result) = model::frame_handled(v, server, h, a[0]);
            let total = HEADER_LEN + h.length;
            lemma_frame_advances(v, server, h, a[0]);
            lemma_sure_place(v, server, h, a[0], b[0]);
            retained_segments::law_taking_keeps_the_rest(v.ingress.input, total);
            if result is Ok {
                lemma_driven_finds_places(next, server, a.drop_first(), b.drop_first());
            }
        },
        _ => {},
    }
}

/// As long as the pools have given out fewer places than there are, every frame that needs one
/// gets it: what comes of input that has no more frames than the pools have places left does
/// not depend on what the pools answer.
pub proof fn law_frames_find_places(v: ConnView, server: bool, a: Seq<Chance>, b: Seq<Chance>)
    requires
        places_apart(a, b, v.ingress.input.bytes().len()),
        places_enough(v, v.ingress.input.bytes().len()),
    ensures
        model::resumed(v, server, a) == model::resumed(v, server, b),
{
    let (next, result) = ingress::preface_accepted(v.ingress);
    if result == Ok::<bool, ConnError>(true) {
        if !v.ingress.preface_done {
            retained_segments::law_taking_keeps_the_rest(
                v.ingress.input,
                ingress::PREFACE_LEN as int,
            );
        }
        lemma_driven_finds_places(v.with_ingress(next), server, a, b);
    }
}

/// The first frames that come to a new connection find places, as many as its pools were made
/// with: nothing that the pools answer can keep the events that they bring away.
pub proof fn law_first_frames_find_places(
    c: ValidatedView,
    preface: bool,
    first_local: u32,
    server: bool,
    bytes: Seq<u8>,
    a: Seq<Chance>,
    b: Seq<Chance>,
)
    requires
        places_apart(a, b, bytes.len()),
        bytes.len() <= HEADER_LEN * c.data_slots,
        bytes.len() <= HEADER_LEN * c.header_slots,
    ensures
        ({
            let v = model::initial(c, preface, first_local);
            model::ingested(v, server, bytes, a) == model::ingested(v, server, bytes, b)
        }),
{
    let v = model::initial(c, preface, first_local);
    if v.ingress.input.has_room(bytes.len() as int) {
        let w = v.with_ingress(
            ingress::IngressView { input: v.ingress.input.with(bytes), ..v.ingress },
        );
        retained_segments::law_bytes_are_appended(v.ingress.input, bytes);
        law_frames_find_places(w, server, a, b);
    }
}

} // verus!
