//! How blocks of header fields come in, whole and in parts.

use crate::h2::conn::answers;
use crate::h2::conn::laws;
use crate::h2::conn::model;
use crate::h2::conn::model::{Chance, ConnView};
use crate::h2::conn::received;
use crate::h2::egress;
use crate::h2::error::ConnError;
use crate::h2::event::EventView;
use crate::h2::frame;
use crate::h2::frame::{ErrorCode, FrameView};
use crate::h2::hpack::encoder;
use crate::h2::hpack::encoder::EncoderView;
use crate::h2::hpack::machine;
use crate::h2::hpack::machine::Machine;
use crate::h2::hpack::{DecoderError, FieldView};
use crate::h2::ingress;
use crate::h2::ingress::{BlockView, IngressView};
use crate::h2::stream;
use crate::h2::stream::{State, StreamId};
use crate::h2::stream_registry;
use crate::h2::validate;
use crate::h2::wire;
use vstd::prelude::*;

verus! {

/// Whether a block that an encoder writes can come in: it is in step with this end, its fields
/// keep the limits, it goes into a frame, and there is a place for it.
pub open spec fn arrives(v: ConnView, e: EncoderView, list: Seq<FieldView>, place: bool) -> bool {
    let block = encoder::block_wire(e, list);
    &&& answers::waits(v)
    &&& laws::block_arrives(e, v.ingress, list)
    &&& block.len() <= v.local.max_frame_size
    &&& 9 + block.len() <= v.ingress.input.byte_capacity
    &&& v.ingress.header_places.gives(place)
}

/// HEADERS with the first fields of a stream that the peer opens are told, with the fields that
/// were sent. Nothing is answered. The stream is there, with the windows that both ends have
/// announced, and open for the peer unless it has said that it is done.
#[verifier::spinoff_prover]
#[verifier::rlimit(60)]
pub proof fn law_streams_open(
    v: ConnView,
    server: bool,
    id: u32,
    e: EncoderView,
    list: Seq<FieldView>,
    end_stream: bool,
    chances: Seq<Chance>,
)
    requires
        arrives(v, e, list, chances[0].place),
        validate::list_valid(list, server, false),
        1 <= id <= 0x7fff_ffff,
        received::never_opened(v, server, id),
        (id % 2 == 1) == server,
        !v.goaway_sent,
        v.streams.records.len() < v.streams.capacity,
        ({
            let theirs = v.streams.records.dom().filter(|i: u32| (i % 2 == 1) == server);
            v.local.max_concurrent_streams matches Some(limit) && theirs.len() < limit
        }),
    ensures
        ({
            let o = model::ingested(
                v,
                server,
                answers::framed(
                    1,
                    4 + wire::mark(end_stream, 1),
                    id as int,
                    encoder::block_wire(e, list),
                ),
                chances,
            );
            &&& answers::answers(
                v,
                o,
                seq![EventView::Headers { stream: id, fields: list, end_stream, trailing: false }],
                Seq::empty(),
            )
            &&& o.0.has_stream(id)
            &&& o.0.streams.records.remove(id) == v.streams.records
            &&& o.0.streams.last_peer == id
            &&& o.0.streams.records[id].stream.state == (if end_stream {
                State::HalfClosedRemote
            } else {
                State::Open
            })
            &&& o.0.streams.records[id].send_window.value == v.peer.initial_window_size
            &&& o.0.streams.records[id].recv_window.value == v.local.initial_window_size
            &&& o.0.streams.records[id].stream.peer_headers_received
            &&& o.0.ingress.table == encoder::after_block(e, list).table
        }),
{
    let block = encoder::block_wire(e, list);
    let flags = 4 + wire::mark(end_stream, 1);
    let f = answers::framed(1, flags, id as int, block);
    answers::lemma_one_frame(v, server, 1, flags, id as int, block, chances);
    frame::lemma_flag_bits(end_stream, true, false);
    reveal(model::headers_frame);
    reveal(model::headers_handled);
    reveal(model::headers_read);
    let w = answers::fed(v, f);
    let theirs = v.streams.records.dom().filter(|i: u32| (i % 2 == 1) == server);
    let peers = stream_registry::opened_by(v.streams.records, server, true);
    assert(theirs =~= peers) by {
        assert forall|i: u32| theirs.contains(i) == peers.contains(i) by {}
    }
    assert(block.subrange(0, block.len() as int) =~= block);
    let piece = model::piece_at(w, 0, block);
    laws::law_fields_are_read_back(
        e,
        w.ingress,
        list,
        piece.contiguous,
        server,
        false,
        chances[0].place,
    );
    StreamId::lemma_id_of(stream::id_of(id), id);
    let event = EventView::Headers { stream: id, fields: list, end_stream, trailing: false };
    assert(v.ingress.events.push(event) =~= v.ingress.events + seq![event]);
    answers::lemma_quiet(v);
    let o = model::ingested(v, server, f, chances);
    assert(o.0.streams.records.remove(id) =~= v.streams.records);
}

/// Fields that are no message are not told: RST_STREAM says that they go against the protocol, and
/// the stream is forgotten. The table of fields goes on all the same.
#[verifier::spinoff_prover]
#[verifier::rlimit(60)]
pub proof fn law_bad_fields_reset_the_stream(
    v: ConnView,
    server: bool,
    id: u32,
    e: EncoderView,
    list: Seq<FieldView>,
    end_stream: bool,
    chances: Seq<Chance>,
)
    requires
        arrives(v, e, list, chances[0].place),
        1 <= id <= 0x7fff_ffff,
        v.has_stream(id),
        !validate::list_valid(list, server, v.streams.records[id].stream.peer_headers_received),
    ensures
        ({
            let o = model::ingested(
                v,
                server,
                answers::framed(
                    1,
                    4 + wire::mark(end_stream, 1),
                    id as int,
                    encoder::block_wire(e, list),
                ),
                chances,
            );
            &&& answers::answers(
                v,
                o,
                Seq::empty(),
                answers::framed(3, 0, id as int, seq![0u8, 0, 0, 1]),
            )
            &&& o.0.streams.records == v.streams.records.remove(id)
            &&& o.0.ingress.table == encoder::after_block(e, list).table
        }),
{
    let block = encoder::block_wire(e, list);
    let flags = 4 + wire::mark(end_stream, 1);
    let f = answers::framed(1, flags, id as int, block);
    answers::lemma_one_frame(v, server, 1, flags, id as int, block, chances);
    frame::lemma_flag_bits(end_stream, true, false);
    reveal(model::headers_frame);
    reveal(model::headers_handled);
    reveal(model::headers_read);
    let w = answers::fed(v, f);
    assert(block.subrange(0, block.len() as int) =~= block);
    let piece = model::piece_at(w, 0, block);
    laws::law_fields_are_read_back(
        e,
        w.ingress,
        list,
        piece.contiguous,
        server,
        v.streams.records[id].stream.peer_headers_received,
        chances[0].place,
    );
    answers::lemma_quiet(v);
    let rst = answers::framed(3, 0, id as int, seq![0u8, 0, 0, 1]);
    assert(answers::word(1) =~= seq![0u8, 0, 0, 1]);
    wire::law_frames_have_their_bytes(
        FrameView::RstStream { stream: id, error: ErrorCode::ProtocolError },
    );
    egress::law_order_is_kept(v.egress, rst);
    let o = model::ingested(v, server, f, chances);
    assert(o.0.streams.records =~= v.streams.records.remove(id));
}

/// It makes no difference in how many parts a block comes: read in two parts it is the block that it
/// is in one.
#[verifier::rlimit(60)]
pub proof fn law_parts_make_the_block(
    v: IngressView,
    e: EncoderView,
    list: Seq<FieldView>,
    at: int,
    request: bool,
    trailing: bool,
    place: bool,
)
    requires
        laws::block_arrives(e, v, list),
        v.active is None,
        v.header_places.gives(place),
        0 <= at <= encoder::block_wire(e, list).len(),
    ensures
        ({
            let block = encoder::block_wire(e, list);
            let (a, x) = ingress::begun(v, block.take(at), request, trailing, place);
            let (b, y) = ingress::continued(a, block.skip(at));
            let (c, z) = ingress::finished(b);
            &&& x is Ok
            &&& y is Ok
            &&& z == Ok::<BlockView, ConnError>(
                BlockView {
                    fields: list,
                    invalid: !validate::list_valid(list, request, trailing),
                },
            )
            &&& c.table == encoder::after_block(e, list).table
            &&& c.active is None
        }),
{
    let m = v.start();
    let block = encoder::block_wire(e, list);
    encoder::law_blocks_round_trip(e, m, list);
    machine::lemma_block_is_fed(m, block);
    let end = machine::block_at(m, block)->Ok_0;
    assert(end.out =~= list);
    let first = block.take(at);
    let rest = block.skip(at);
    assert(first + rest =~= block);
    machine::lemma_feed_concat(m, first, rest);
    assert(machine::feed(m, first) is Ok);
    let mid = machine::feed(m, first)->Ok_0;
    let (a, x) = ingress::begun(v, first, request, trailing, place);
    assert(v.asked_for_headers(true).start() == m);
    assert(a.active matches Some(active) && active.machine == mid);
    assert(machine::feed(mid, rest) == Ok::<Machine, (Machine, DecoderError)>(end));
}

/// While a block is under way nothing else may come: a frame of another type is a failure, and so
/// is CONTINUATION of another stream, one that brings nothing, and one where no block is under way.
/// So is a block in more parts than are taken, and one that is longer than is taken.
#[verifier::rlimit(60)]
pub proof fn law_blocks_are_not_broken_up(
    v: ConnView,
    server: bool,
    h: frame::HeadView,
    fragment: Seq<u8>,
    end_headers: bool,
    id: u32,
    chance: Chance,
)
    ensures
        v.ingress.pending is Some && !(h.kind is Continuation) ==> model::frame_handled(
            v,
            server,
            h,
            chance,
        ) == (v, Err::<(), ConnError>(ConnError::Continuation)),
        v.ingress.pending is None ==> model::continuation_handled(
            v,
            server,
            id,
            end_headers,
            fragment,
        ) == (v, Err::<(), ConnError>(ConnError::Continuation)),
        v.ingress.pending matches Some(p) ==> {
            let r = model::continuation_handled(v, server, id, end_headers, fragment).1;
            &&& p.stream != id ==> r == Err::<(), ConnError>(ConnError::Continuation)
            &&& p.stream == id && fragment.len() == 0 && !end_headers ==> r == Err::<
                (),
                ConnError,
            >(ConnError::Continuation)
            &&& p.stream == id && fragment.len() > 0 && p.continuations >= 64 ==> r == Err::<
                (),
                ConnError,
            >(ConnError::Overload)
            &&& p.stream == id && fragment.len() > 0 && p.continuations < 64 && (
            v.ingress.active matches Some(active) && active.wire_len + fragment.len()
                > v.ingress.header_cap) ==> r == Err::<(), ConnError>(
                ConnError::HeaderListTooLarge,
            )
        },
{
    reveal(model::continuation_handled);
}

/// A block that is longer than is taken is a failure.
pub proof fn law_long_blocks_are_refused(
    v: IngressView,
    s: Seq<u8>,
    contiguous: bool,
    request: bool,
    trailing: bool,
    place: bool,
)
    requires
        s.len() > v.header_cap,
        v.active is None,
    ensures
        ingress::completed(v, s, contiguous, request, trailing, place) == (
            v,
            Err::<BlockView, ConnError>(ConnError::HeaderListTooLarge),
        ),
        ingress::begun(v, s, request, trailing, place) == (
            v,
            Err::<(), ConnError>(ConnError::HeaderListTooLarge),
        ),
{
}

/// The next block of fields on a stream that is there is told with the fields that were sent: as
/// the head of an answer where the peer has sent none yet, else as what ends its message. The
/// stream goes on as the flag says. Priorities at the start of the block say nothing.
#[verifier::spinoff_prover]
#[verifier::rlimit(60)]
pub proof fn law_fields_on_streams_are_told(
    v: ConnView,
    server: bool,
    id: u32,
    e: EncoderView,
    list: Seq<FieldView>,
    end_stream: bool,
    priority: Seq<u8>,
    chances: Seq<Chance>,
)
    requires
        arrives(v, e, list, chances[0].place),
        1 <= id <= 0x7fff_ffff,
        v.has_stream(id),
        validate::list_valid(list, server, v.streams.records[id].stream.peer_headers_received),
        v.streams.records[id].stream.state is Open
            || v.streams.records[id].stream.state is HalfClosedLocal,
        priority.len() == 0 || priority.len() == 5,
        answers::comes(v, 0, id as int, priority + encoder::block_wire(e, list)),
    ensures
        ({
            let r = v.streams.records[id];
            let o = model::ingested(
                v,
                server,
                answers::framed(
                    1,
                    4 + wire::mark(end_stream, 1) + wire::mark(priority.len() > 0, 32),
                    id as int,
                    priority + encoder::block_wire(e, list),
                ),
                chances,
            );
            &&& answers::answers(
                v,
                o,
                seq![
                    EventView::Headers {
                        stream: id,
                        fields: list,
                        end_stream,
                        trailing: r.stream.peer_headers_received,
                    },
                ],
                Seq::empty(),
            )
            &&& end_stream && r.stream.state is HalfClosedLocal ==> !o.0.has_stream(id)
            &&& !(end_stream && r.stream.state is HalfClosedLocal) ==> {
                &&& o.0.has_stream(id)
                &&& o.0.streams.records[id].stream.peer_headers_received
                &&& o.0.streams.records[id].send_window == r.send_window
                &&& o.0.streams.records[id].recv_window == r.recv_window
                &&& o.0.streams.records[id].stream.state == (if end_stream {
                    State::HalfClosedRemote
                } else {
                    r.stream.state
                })
            }
            &&& o.0.streams.records.remove(id) == v.streams.records.remove(id)
            &&& o.0.ingress.table == encoder::after_block(e, list).table
        }),
{
    let block = encoder::block_wire(e, list);
    let payload = priority + block;
    let flags = 4 + wire::mark(end_stream, 1) + wire::mark(priority.len() > 0, 32);
    let f = answers::framed(1, flags, id as int, payload);
    answers::lemma_one_frame(v, server, 1, flags, id as int, payload, chances);
    frame::lemma_flag_bits(end_stream, true, priority.len() > 0);
    reveal(model::headers_frame);
    reveal(model::headers_handled);
    reveal(model::headers_read);
    let w = answers::fed(v, f);
    let skip = priority.len() as int;
    assert(payload.subrange(skip, payload.len() as int) =~= block);
    let piece = model::piece_at(w, skip, block);
    laws::law_fields_are_read_back(
        e,
        w.ingress,
        list,
        piece.contiguous,
        server,
        v.streams.records[id].stream.peer_headers_received,
        chances[0].place,
    );
    let event = EventView::Headers {
        stream: id,
        fields: list,
        end_stream,
        trailing: v.streams.records[id].stream.peer_headers_received,
    };
    assert(v.ingress.events.push(event) =~= v.ingress.events + seq![event]);
    answers::lemma_quiet(v);
    let o = model::ingested(v, server, f, chances);
    assert(o.0.streams.records.remove(id) =~= v.streams.records.remove(id));
}

/// PUSH_PROMISE of a server is told, with the number of the stream that it promises and the fields
/// of the request that it answers, and the stream is kept for it.
#[verifier::spinoff_prover]
#[verifier::rlimit(60)]
pub proof fn law_promises_are_told(
    v: ConnView,
    id: u32,
    promised: u32,
    e: EncoderView,
    list: Seq<FieldView>,
    chances: Seq<Chance>,
)
    requires
        arrives(v, e, list, chances[0].place),
        1 <= id <= 0x7fff_ffff,
        1 <= promised <= 0x7fff_ffff,
        promised % 2 == 0,
        promised > v.streams.last_peer,
        !v.has_stream(promised),
        validate::list_valid(list, true, false),
        v.streams.records.len() < v.streams.capacity,
        ({
            let theirs = v.streams.records.dom().filter(|i: u32| i != 0 && i % 2 == 0);
            v.local.max_concurrent_streams matches Some(limit) && theirs.len() < limit
        }),
        answers::comes(
            v,
            0,
            id as int,
            answers::word(promised as int) + encoder::block_wire(e, list),
        ),
    ensures
        ({
            let f = answers::framed(
                5,
                4,
                id as int,
                answers::word(promised as int) + encoder::block_wire(e, list),
            );
            let o = model::ingested(v, false, f, chances);
            &&& answers::answers(
                v,
                o,
                seq![EventView::PushPromise { stream: id, promised, fields: list }],
                Seq::empty(),
            )
            &&& o.0.has_stream(promised)
            &&& o.0.streams.records[promised].stream.state is ReservedRemote
            &&& o.0.streams.records.remove(promised) == v.streams.records
            &&& o.0.streams.last_peer == promised
        }),
{
    let block = encoder::block_wire(e, list);
    let payload = answers::word(promised as int) + block;
    let f = answers::framed(5, 4, id as int, payload);
    answers::lemma_one_frame(v, false, 5, 4, id as int, payload, chances);
    answers::lemma_word(promised, block);
    frame::lemma_flag_bits(false, true, false);
    reveal(model::promise_frame);
    reveal(model::promise_handled);
    let w = answers::fed(v, f);
    let theirs = v.streams.records.dom().filter(|i: u32| i != 0 && i % 2 == 0);
    let peers = stream_registry::opened_by(v.streams.records, false, true);
    assert(theirs =~= peers) by {
        assert forall|i: u32| theirs.contains(i) == peers.contains(i) by {}
    }
    assert(payload.subrange(4, payload.len() as int) =~= block);
    let piece = model::piece_at(w, 4, block);
    laws::law_fields_are_read_back(
        e,
        w.ingress,
        list,
        piece.contiguous,
        true,
        false,
        chances[0].place,
    );
    let event = EventView::PushPromise { stream: id, promised, fields: list };
    assert(v.ingress.events.push(event) =~= v.ingress.events + seq![event]);
    answers::lemma_quiet(v);
    assert(frame::unpadded(4, payload) == Some(payload));
    assert(crate::bytes::be32(payload, 0) % 0x8000_0000 == promised);
    let read = w.with_ingress(
        IngressView {
            table: encoder::after_block(e, list).table,
            ..w.ingress.asked_for_headers(true)
        },
    );
    let told = BlockView { fields: list, invalid: false };
    assert(model::accepts_peer(read, false));
    let done = model::promise_done(read, false, id, promised, told, false);
    assert(done.1 is Ok);
    assert(done.0.ingress.events == v.ingress.events.push(event));
    assert(model::promise_handled(w, false, id, promised, true, piece, chances[0].place) == done);
    let o = model::ingested(v, false, f, chances);
    assert(o.0 == done.0.consumed(9 + payload.len() as int));
    assert(o.0.streams.records.remove(promised) =~= v.streams.records);
}

/// To a server no promise may come.
#[verifier::rlimit(60)]
pub proof fn law_servers_take_no_promises(
    v: ConnView,
    id: u32,
    promised: u32,
    block: Seq<u8>,
    chances: Seq<Chance>,
)
    requires
        answers::waits(v),
        1 <= id <= 0x7fff_ffff,
        answers::comes(v, 0, id as int, answers::word(promised as int) + block),
    ensures
        model::ingested(
            v,
            true,
            answers::framed(5, 4, id as int, answers::word(promised as int) + block),
            chances,
        ).1 == Err::<(), ConnError>(ConnError::Protocol),
{
    let payload = answers::word(promised as int) + block;
    answers::lemma_one_frame(v, true, 5, 4, id as int, payload, chances);
    answers::lemma_word(promised, block);
    frame::lemma_flag_bits(false, true, false);
    reveal(model::promise_frame);
    reveal(model::promise_handled);
}

/// Input for which there is no room is not taken: nothing changes.
pub proof fn law_too_much_input_is_refused(
    v: ConnView,
    server: bool,
    more: Seq<u8>,
    chances: Seq<Chance>,
)
    requires
        v.ingress.input.bytes().len() + more.len() > v.ingress.input.byte_capacity,
        more.len() > 0,
    ensures
        model::ingested(v, server, more, chances) == (
            v,
            Err::<(), ConnError>(ConnError::Overload),
        ),
{
}

} // verus!
