//! What a connection does with each frame of the peer, and what it sends, byte by byte.

use crate::collections;
use crate::h2::conn::model;
use crate::h2::conn::model::{Chance, ConnView, Outcome};
use crate::h2::conn::progress;
use crate::h2::egress;
use crate::h2::error::ConnError;
use crate::h2::event::EventView;
use crate::h2::frame;
use crate::h2::frame::{FrameView, HeadView, ParseError, HEADER_LEN};
use crate::h2::ingress;
use crate::h2::ingress::{FrontView, IngressView};
use crate::h2::retained_segments;
use crate::h2::settings;
use crate::h2::settings::Settings;
use crate::h2::stream_registry;
use vstd::prelude::*;

verus! {

/// Four bytes that hold a number, the most significant first.
pub open spec fn word(n: int) -> Seq<u8> {
    seq![
        (n / 16777216) as u8,
        (n / 65536 % 256) as u8,
        (n / 256 % 256) as u8,
        (n % 256) as u8,
    ]
}

/// The nine bytes before the payload of a frame: the length of the payload, the type, the
/// flags and the stream.
pub open spec fn octets(length: int, kind: int, flags: int, stream: int) -> Seq<u8> {
    seq![
        (length / 65536) as u8,
        (length / 256 % 256) as u8,
        (length % 256) as u8,
        kind as u8,
        flags as u8,
        (stream / 16777216) as u8,
        (stream / 65536 % 256) as u8,
        (stream / 256 % 256) as u8,
        (stream % 256) as u8,
    ]
}

/// A frame on the wire.
pub open spec fn framed(kind: int, flags: int, stream: int, payload: Seq<u8>) -> Seq<u8> {
    octets(payload.len() as int, kind, flags, stream) + payload
}

/// A connection past its preface that has used up its input, is in no block of header fields
/// and has room for an event and for what it may have to answer.
pub open spec fn waits(v: ConnView) -> bool {
    &&& model::conn_inv(v)
    &&& v.ingress.preface_done
    &&& v.ingress.input.chunks.len() == 0
    &&& v.ingress.input.chunk_capacity > 0
    &&& v.ingress.pending is None
    &&& v.ingress.event_room()
    &&& v.egress.has_room(26)
}

/// Whether a frame with such a payload can come in.
pub open spec fn comes(v: ConnView, flags: int, stream: int, payload: Seq<u8>) -> bool {
    &&& payload.len() <= v.local.max_frame_size
    &&& 9 + payload.len() <= v.ingress.input.byte_capacity
    &&& 0 <= flags < 256
    &&& 0 <= stream <= 0x7fff_ffff
}

/// How a frame is written.
#[verifier::rlimit(60)]
pub proof fn lemma_octets(h: HeadView)
    ensures
        frame::head_wire(h) == octets(
            h.length as int,
            frame::type_number(h.kind) as int,
            h.flags as int,
            h.stream as int,
        ),
{
    assert(frame::head_wire(h) =~= octets(
        h.length as int,
        frame::type_number(h.kind) as int,
        h.flags as int,
        h.stream as int,
    ));
}

/// The connection with a frame as its only input.
pub open spec fn fed(v: ConnView, f: Seq<u8>) -> ConnView {
    v.with_ingress(IngressView { input: v.ingress.input.with(f), ..v.ingress })
}

/// A frame that is the only input is dealt with, and nothing else is.
#[verifier::rlimit(60)]
pub proof fn lemma_one_frame(
    v: ConnView,
    server: bool,
    kind: int,
    flags: int,
    stream: int,
    payload: Seq<u8>,
    chances: Seq<Chance>,
)
    requires
        waits(v),
        comes(v, flags, stream, payload),
        0 <= kind <= 9,
    ensures
        ({
            let f = framed(kind, flags, stream, payload);
            let h = HeadView {
                length: payload.len() as u32,
                kind: frame::type_of(kind as u8),
                flags: flags as u8,
                stream: stream as u32,
            };
            let w = fed(v, f);
            let o = model::frame_handled(w, server, h, chances[0]);
            &&& frame::type_number(h.kind) == kind
            &&& w.ingress.input.bytes() == f
            &&& model::payload_of(w, h) == payload
            &&& HEADER_LEN + h.length == f.len()
            &&& model::ingested(v, server, f, chances).0 == o.0
            &&& o.1 is Ok ==> model::ingested(v, server, f, chances).1 is Ok
            &&& o.1 matches Err(e) ==> model::ingested(v, server, f, chances).1 == Err::<
                (),
                ConnError,
            >(e)
            &&& o.1 is Ok ==> o.0.ingress.input == v.ingress.input
        }),
{
    let f = framed(kind, flags, stream, payload);
    let h = HeadView {
        length: payload.len() as u32,
        kind: frame::type_of(kind as u8),
        flags: flags as u8,
        stream: stream as u32,
    };
    let w = fed(v, f);
    let n = f.len() as int;
    assert(v.ingress.input.bytes() =~= Seq::<u8>::empty());
    retained_segments::law_bytes_are_appended(v.ingress.input, f);
    assert(w.ingress.input.bytes() =~= f);
    lemma_octets(h);
    frame::law_heads_round_trip(h, payload);
    assert(model::payload_of(w, h) =~= payload);
    assert(ingress::front(f, v.local.max_frame_size) == Ok::<FrontView, ConnError>(
        FrontView::Frame(h),
    ));
    progress::lemma_frame_advances(w, server, h, chances[0]);
    let o = model::frame_handled(w, server, h, chances[0]);
    retained_segments::law_taking_keeps_the_rest(w.ingress.input, n);
    let left = w.ingress.input.without(n);
    assert(w.ingress.input.chunks =~= seq![f]);
    assert(seq![f].drop_first() =~= Seq::<Seq<u8>>::empty());
    assert(collections::advanced(seq![f], n) =~= Seq::<Seq<u8>>::empty()) by {
        reveal_with_fuel(collections::advanced, 2);
    }
    assert(left.chunks =~= v.ingress.input.chunks);
    assert(left =~= v.ingress.input);
    if o.1 is Ok {
        let next = o.0;
        assert(next.ingress.input == v.ingress.input);
        assert(next.ingress.input.bytes().len() == 0);
        assert(ingress::front(next.ingress.input.bytes(), next.local.max_frame_size) == Ok::<
            FrontView,
            ConnError,
        >(FrontView::Wait));
        assert(model::driven(next, server, chances.drop_first()) == (next, Ok::<(), ConnError>(())));
        assert(model::driven(w, server, chances) == (next, Ok::<(), ConnError>(())));
    } else {
        assert(o == (o.0, Err::<(), ConnError>(o.1->Err_0)));
        assert(model::driven(w, server, chances) == o);
    }
    assert(ingress::preface_accepted(w.ingress) == (w.ingress, Ok::<bool, ConnError>(true)));
    assert(w.with_ingress(w.ingress) =~= w);
    assert(model::resumed(w, server, chances) == model::driven(w, server, chances));
}

/// Whether a frame was taken, what it brought and what was answered.
pub open spec fn answers(v: ConnView, o: Outcome, events: Seq<EventView>, sent: Seq<u8>) -> bool {
    &&& o.1 is Ok
    &&& o.0.ingress.events == v.ingress.events + events
    &&& o.0.egress.bytes == v.egress.bytes + sent
    &&& o.0.egress.outgoing() == v.egress.outgoing() + sent
    &&& o.0.ingress.input == v.ingress.input
}

/// Every SETTINGS frame that is taken is acknowledged, with the nine bytes of an empty SETTINGS
/// frame that has its first flag set, and nothing else is sent.
#[verifier::rlimit(60)]
pub proof fn law_settings_are_acknowledged(
    v: ConnView,
    server: bool,
    payload: Seq<u8>,
    chances: Seq<Chance>,
)
    requires
        waits(v),
        comes(v, 0, 0, payload),
    ensures
        ({
            let o = model::ingested(v, server, framed(4, 0, 0, payload), chances);
            &&& o.1 is Ok ==> answers(
                v,
                o,
                seq![EventView::SettingsApplied],
                seq![0u8, 0, 0, 4, 1, 0, 0, 0, 0],
            )
            &&& o.1 is Ok ==> payload.len() % 6 == 0
            &&& settings::applied_all(v.peer, frame::settings_in(payload)) matches Ok(next)
                ==> payload.len() % 6 == 0 && stream_registry::windows_move(
                v.streams.records,
                next.initial_window_size - v.peer.initial_window_size,
            ) ==> o.1 is Ok
        }),
{
    lemma_one_frame(v, server, 4, 0, 0, payload, chances);
    let f = framed(4, 0, 0, payload);
    let w = fed(v, f);
    reveal(model::settings_frame);
    assert(!frame::flag(0, 1)) by {
        assert(0u8 & 1u8 == 0u8) by (bit_vector);
    }
    let ack = FrameView::Settings { ack: true, params: Seq::empty() };
    let sent = seq![0u8, 0, 0, 4, 1, 0, 0, 0, 0];
    lemma_octets(frame::frame_head(ack));
    assert(frame::frame_wire(ack) =~= sent);
    let o = model::ingested(v, server, f, chances);
    egress::law_order_is_kept(v.egress, sent);
    assert(v.ingress.events.push(EventView::SettingsApplied) =~= v.ingress.events
        + seq![EventView::SettingsApplied]);
    if o.1 is Ok {
        assert(o.0.egress.bytes == v.egress.bytes + sent);
        assert(o.0.egress.payloads == v.egress.payloads);
    }
}

/// One parameter of a SETTINGS frame takes effect as its number says: the size of the table for
/// header fields, whether promises may be made, how many streams may be open, how much may be
/// sent on a new stream, how long a frame may be, how long a list of header fields may be. An
/// unknown one changes nothing, and a value out of range is refused.
#[verifier::rlimit(60)]
pub proof fn law_settings_take_effect(
    v: ConnView,
    server: bool,
    number: int,
    value: u32,
    chances: Seq<Chance>,
)
    requires
        waits(v),
        0 <= number < 65536,
        15 <= v.ingress.input.byte_capacity,
    ensures
        ({
            let param = seq![(number / 256) as u8, (number % 256) as u8] + word(value as int);
            let o = model::ingested(v, server, framed(4, 0, 0, param), chances);
            &&& number == 1 ==> o.1 is Ok && o.0.peer == (Settings {
                header_table_size: value,
                ..v.peer
            })
            &&& number == 2 && value <= 1 ==> o.1 is Ok && o.0.peer == (Settings {
                enable_push: value == 1,
                ..v.peer
            })
            &&& number == 2 && value > 1 ==> o.1 == Err::<(), ConnError>(ConnError::BadSettings)
                && o.0.peer == v.peer
            &&& number == 3 ==> o.1 is Ok && o.0.peer == (Settings {
                max_concurrent_streams: Some(value),
                ..v.peer
            })
            &&& number == 4 && value <= 0x7fff_ffff && o.1 is Ok ==> o.0.peer == (Settings {
                initial_window_size: value,
                ..v.peer
            })
            &&& number == 4 && value <= 0x7fff_ffff && v.streams.records.dom() =~= Set::empty()
                ==> o.1 is Ok
            &&& number == 4 && value > 0x7fff_ffff ==> o.1 == Err::<(), ConnError>(
                ConnError::FlowControl,
            ) && o.0.peer == v.peer
            &&& number == 5 && 16384 <= value <= 16777215 ==> o.1 is Ok && o.0.peer == (Settings {
                max_frame_size: value,
                ..v.peer
            })
            &&& number == 5 && !(16384 <= value <= 16777215) ==> o.1 == Err::<(), ConnError>(
                ConnError::BadSettings,
            ) && o.0.peer == v.peer
            &&& number == 6 ==> o.1 is Ok && o.0.peer == (Settings {
                max_header_list_size: Some(value),
                ..v.peer
            })
            &&& number == 0 || number > 6 ==> o.1 is Ok && o.0.peer == v.peer
        }),
{
    let param = seq![(number / 256) as u8, (number % 256) as u8] + word(value as int);
    lemma_one_frame(v, server, 4, 0, 0, param, chances);
    reveal(model::settings_frame);
    assert(!frame::flag(0, 1)) by {
        assert(0u8 & 1u8 == 0u8) by (bit_vector);
    }
    assert(param.subrange(0, 2) =~= crate::bytes::wire16(number as u16));
    assert(param.subrange(2, 6) =~= crate::bytes::wire32(value));
    crate::bytes::lemma_wire16(number as u16, param, 0);
    crate::bytes::lemma_wire32(value, param, 2);
    let rest = param.subrange(6, 6);
    assert(frame::settings_in(rest) =~= Seq::empty());
    let one = (frame::setting_of(number as u16), value);
    assert(frame::settings_in(param) =~= seq![one]);
    assert(seq![one].drop_first() =~= Seq::empty());
    assert(settings::applied_all(v.peer, seq![one]) == settings::applied_any(v.peer, one)) by {
        reveal_with_fuel(settings::applied_all, 2);
    }
}

/// The parameters of a SETTINGS frame take effect one after the other.
pub proof fn law_settings_follow_each_other(s: Settings, a: Seq<u8>, b: Seq<u8>)
    requires
        a.len() % 6 == 0,
    ensures
        settings::applied_all(s, frame::settings_in(a + b)) == (match settings::applied_all(
            s,
            frame::settings_in(a),
        ) {
            Ok(next) => settings::applied_all(next, frame::settings_in(b)),
            Err(failure) => Err(failure),
        }),
    decreases a.len(),
{
    if a.len() == 0 {
        assert(a + b =~= b);
    } else {
        let rest = a.subrange(6, a.len() as int);
        let whole = a + b;
        assert(whole.subrange(6, whole.len() as int) =~= rest + b);
        assert(frame::setting_at(whole) == frame::setting_at(a));
        let one = frame::setting_at(a);
        assert(frame::settings_in(a).drop_first() =~= frame::settings_in(rest));
        assert(frame::settings_in(whole).drop_first() =~= frame::settings_in(rest + b));
        match settings::applied_any(s, one) {
            Ok(next) => law_settings_follow_each_other(next, rest, b),
            Err(_) => {},
        }
    }
}

/// An acknowledgement is noted, and not answered.
#[verifier::rlimit(60)]
pub proof fn law_acknowledgements_are_noted(v: ConnView, server: bool, chances: Seq<Chance>)
    requires
        waits(v),
        9 <= v.ingress.input.byte_capacity,
    ensures
        ({
            let o = model::ingested(v, server, seq![0u8, 0, 0, 4, 1, 0, 0, 0, 0], chances);
            &&& answers(v, o, seq![EventView::SettingsAck], Seq::empty())
            &&& o.0.settings_received
            &&& o.0.peer == v.peer
            &&& o.0.streams == v.streams
        }),
{
    lemma_one_frame(v, server, 4, 1, 0, Seq::empty(), chances);
    assert(framed(4, 1, 0, Seq::empty()) =~= seq![0u8, 0, 0, 4, 1, 0, 0, 0, 0]);
    reveal(model::settings_frame);
    assert(frame::flag(1, 1)) by {
        assert(1u8 & 1u8 == 1u8) by (bit_vector);
    }
    lemma_quiet(v);
    assert(v.ingress.events.push(EventView::SettingsAck) =~= v.ingress.events
        + seq![EventView::SettingsAck]);
}

/// Nothing is added by nothing.
pub proof fn lemma_quiet(v: ConnView)
    ensures
        v.egress.bytes + Seq::<u8>::empty() == v.egress.bytes,
        v.egress.outgoing() + Seq::<u8>::empty() == v.egress.outgoing(),
        v.ingress.events + Seq::<EventView>::empty() == v.ingress.events,
{
    assert(v.egress.bytes + Seq::<u8>::empty() =~= v.egress.bytes);
    assert(v.egress.outgoing() + Seq::<u8>::empty() =~= v.egress.outgoing());
    assert(v.ingress.events + Seq::<EventView>::empty() =~= v.ingress.events);
}

/// A PING is answered with its own eight bytes and the flag of an answer; an answer to a PING of
/// this end is noted and not answered.
#[verifier::rlimit(60)]
pub proof fn law_pings_are_answered(
    v: ConnView,
    server: bool,
    opaque: Seq<u8>,
    chances: Seq<Chance>,
)
    requires
        waits(v),
        opaque.len() == 8,
        17 <= v.ingress.input.byte_capacity,
    ensures
        answers(
            v,
            model::ingested(v, server, seq![0u8, 0, 8, 6, 0, 0, 0, 0, 0] + opaque, chances),
            seq![EventView::Ping { ack: false, opaque }],
            seq![0u8, 0, 8, 6, 1, 0, 0, 0, 0] + opaque,
        ),
        answers(
            v,
            model::ingested(v, server, seq![0u8, 0, 8, 6, 1, 0, 0, 0, 0] + opaque, chances),
            seq![EventView::Ping { ack: true, opaque }],
            Seq::empty(),
        ),
{
    lemma_one_frame(v, server, 6, 0, 0, opaque, chances);
    lemma_one_frame(v, server, 6, 1, 0, opaque, chances);
    assert(framed(6, 0, 0, opaque) =~= seq![0u8, 0, 8, 6, 0, 0, 0, 0, 0] + opaque);
    assert(framed(6, 1, 0, opaque) =~= seq![0u8, 0, 8, 6, 1, 0, 0, 0, 0] + opaque);
    reveal(model::ping_frame);
    assert(frame::flag(1, 1) && !frame::flag(0, 1)) by {
        assert(1u8 & 1u8 == 1u8) by (bit_vector);
        assert(0u8 & 1u8 == 0u8) by (bit_vector);
    }
    let answer = FrameView::Ping { ack: true, opaque };
    lemma_octets(frame::frame_head(answer));
    let sent = seq![0u8, 0, 8, 6, 1, 0, 0, 0, 0] + opaque;
    assert(frame::frame_wire(answer) =~= sent);
    egress::law_order_is_kept(v.egress, sent);
    lemma_quiet(v);
    let a = EventView::Ping { ack: false, opaque };
    let b = EventView::Ping { ack: true, opaque };
    assert(v.ingress.events.push(a) =~= v.ingress.events + seq![a]);
    assert(v.ingress.events.push(b) =~= v.ingress.events + seq![b]);
}

/// A number in four bytes is read back.
pub proof fn lemma_word(n: u32, rest: Seq<u8>)
    ensures
        word(n as int).len() == 4,
        crate::bytes::wire32(n) == word(n as int),
        crate::bytes::be32(word(n as int) + rest, 0) == n,
{
    let s = word(n as int) + rest;
    assert(crate::bytes::wire32(n) =~= word(n as int));
    assert(s.subrange(0, 4) =~= crate::bytes::wire32(n));
    crate::bytes::lemma_wire32(n, s, 0);
}

/// WINDOW_UPDATE for the connection lets this end send so many bytes more, and it is noted that
/// a window has opened. It is not answered. An increment that leads beyond the largest window is
/// refused, and so is one of zero.
#[verifier::rlimit(60)]
pub proof fn law_the_connection_window_grows(
    v: ConnView,
    server: bool,
    n: u32,
    chances: Seq<Chance>,
)
    requires
        waits(v),
        13 <= v.ingress.input.byte_capacity,
        n <= 0x7fff_ffff,
    ensures
        ({
            let o = model::ingested(
                v,
                server,
                seq![0u8, 0, 4, 8, 0, 0, 0, 0, 0] + word(n as int),
                chances,
            );
            &&& n > 0 && v.send_window.value + n <= 0x7fff_ffff ==> answers(
                v,
                o,
                Seq::empty(),
                Seq::empty(),
            ) && o.0.send_window.value == v.send_window.value + n && o.0.opened && o.0.streams
                == v.streams
            &&& n > 0 && v.send_window.value + n > 0x7fff_ffff ==> o.1 == Err::<(), ConnError>(
                ConnError::FlowControl,
            )
            &&& n == 0 ==> o.1 == Err::<(), ConnError>(
                ConnError::ParseError(ParseError::ZeroIncrement),
            )
        }),
{
    lemma_one_frame(v, server, 8, 0, 0, word(n as int), chances);
    assert(framed(8, 0, 0, word(n as int)) =~= seq![0u8, 0, 4, 8, 0, 0, 0, 0, 0] + word(n as int));
    reveal(model::update_frame);
    lemma_word(n, Seq::empty());
    assert(word(n as int) + Seq::<u8>::empty() =~= word(n as int));
    lemma_quiet(v);
}

/// WINDOW_UPDATE for a stream lets this end send so many bytes more on it, and leaves every other
/// stream and the connection's window as they were.
#[verifier::rlimit(60)]
pub proof fn law_a_stream_window_grows(
    v: ConnView,
    server: bool,
    id: u32,
    n: u32,
    chances: Seq<Chance>,
)
    requires
        waits(v),
        13 <= v.ingress.input.byte_capacity,
        0 < n <= 0x7fff_ffff,
        v.has_stream(id),
        id <= 0x7fff_ffff,
    ensures
        ({
            let o = model::ingested(
                v,
                server,
                framed(8, 0, id as int, word(n as int)),
                chances,
            );
            let w = v.streams.records[id].send_window.value;
            &&& w + n <= 0x7fff_ffff ==> {
                &&& answers(v, o, Seq::empty(), Seq::empty())
                &&& o.0.has_stream(id)
                &&& o.0.streams.records[id].send_window.value == w + n
                &&& o.0.streams.records[id].stream == v.streams.records[id].stream
                &&& o.0.streams.records[id].recv_window == v.streams.records[id].recv_window
                &&& o.0.opened
                &&& o.0.send_window == v.send_window
                &&& o.0.streams.records.remove(id) == v.streams.records.remove(id)
            }
            &&& w + n > 0x7fff_ffff ==> o.1 == Err::<(), ConnError>(ConnError::FlowControl)
        }),
{
    lemma_one_frame(v, server, 8, 0, id as int, word(n as int), chances);
    reveal(model::update_frame);
    lemma_word(n, Seq::empty());
    assert(word(n as int) + Seq::<u8>::empty() =~= word(n as int));
    lemma_quiet(v);
    let o = model::ingested(v, server, framed(8, 0, id as int, word(n as int)), chances);
    if v.streams.records[id].send_window.value + n <= 0x7fff_ffff {
        assert(o.0.streams.records.remove(id) =~= v.streams.records.remove(id));
    }
}

/// RST_STREAM ends a stream: it is told with the reason that the peer gives, the stream is gone,
/// and nothing is answered.
#[verifier::rlimit(60)]
pub proof fn law_resets_are_told(
    v: ConnView,
    server: bool,
    id: u32,
    code: u32,
    chances: Seq<Chance>,
)
    requires
        waits(v),
        13 <= v.ingress.input.byte_capacity,
        v.has_stream(id),
        id <= 0x7fff_ffff,
        v.peer_resets < 100,
    ensures
        ({
            let o = model::ingested(
                v,
                server,
                framed(3, 0, id as int, word(code as int)),
                chances,
            );
            &&& answers(
                v,
                o,
                seq![EventView::StreamReset { stream: id, error: frame::error_of(code) }],
                Seq::empty(),
            )
            &&& !o.0.has_stream(id)
            &&& o.0.streams.records == v.streams.records.remove(id)
            &&& o.0.peer_resets == v.peer_resets + 1
        }),
{
    lemma_one_frame(v, server, 3, 0, id as int, word(code as int), chances);
    reveal(model::rst_frame);
    lemma_word(code, Seq::empty());
    assert(word(code as int) + Seq::<u8>::empty() =~= word(code as int));
    lemma_quiet(v);
    let o = model::ingested(v, server, framed(3, 0, id as int, word(code as int)), chances);
    let e = EventView::StreamReset { stream: id, error: frame::error_of(code) };
    assert(v.ingress.events.push(e) =~= v.ingress.events + seq![e]);
    assert(o.0.streams.records =~= v.streams.records.remove(id));
}

/// GOAWAY is told with what it says, and noted: from then on this end opens no more streams.
#[verifier::rlimit(60)]
pub proof fn law_goaway_is_told(
    v: ConnView,
    server: bool,
    last: u32,
    code: u32,
    debug: Seq<u8>,
    chances: Seq<Chance>,
    fields: Seq<crate::h2::hpack::FieldView>,
    end_stream: bool,
)
    requires
        waits(v),
        last <= 0x7fff_ffff,
        comes(v, 0, 0, word(last as int) + word(code as int) + debug),
        v.ingress.data_places.gives(chances[0].place),
    ensures
        ({
            let o = model::ingested(
                v,
                server,
                framed(7, 0, 0, word(last as int) + word(code as int) + debug),
                chances,
            );
            &&& answers(
                v,
                o,
                seq![EventView::GoAway { last, error: frame::error_of(code), debug }],
                Seq::empty(),
            )
            &&& o.0.goaway_received == Some(frame::error_of(code))
            &&& o.0.streams == v.streams
            &&& model::request_started(o.0, fields, end_stream).1 == Err::<u32, ConnError>(
                ConnError::StreamGoneAway,
            )
        }),
{
    let payload = word(last as int) + word(code as int) + debug;
    lemma_one_frame(v, server, 7, 0, 0, payload, chances);
    reveal(model::goaway_frame);
    reveal(model::request_started);
    lemma_word(last, word(code as int) + debug);
    lemma_word(code, debug);
    assert(payload =~= word(last as int) + (word(code as int) + debug));
    assert(payload.subrange(4, 8) =~= crate::bytes::wire32(code));
    crate::bytes::lemma_wire32(code, payload, 4);
    assert(payload.subrange(8, payload.len() as int) =~= debug);
    lemma_quiet(v);
    let e = EventView::GoAway { last, error: frame::error_of(code), debug };
    assert(v.ingress.events.push(e) =~= v.ingress.events + seq![e]);
}

/// Frames that ask for nothing are passed over: PRIORITY, and frames of a type that is not known.
#[verifier::rlimit(60)]
pub proof fn law_other_frames_are_passed_over(
    v: ConnView,
    server: bool,
    kind: int,
    flags: int,
    id: int,
    payload: Seq<u8>,
    chances: Seq<Chance>,
)
    requires
        waits(v),
        comes(v, flags, id, payload),
        9 < kind < 256 || (kind == 2 && payload.len() == 5 && id != 0 && crate::bytes::be32(
            payload,
            0,
        ) % 0x8000_0000 != id),
    ensures
        model::ingested(v, server, framed(kind, flags, id, payload), chances).0 == v,
        model::ingested(v, server, framed(kind, flags, id, payload), chances).1 is Ok,
{
    let f = framed(kind, flags, id, payload);
    if kind == 2 {
        lemma_one_frame(v, server, 2, flags, id, payload, chances);
        reveal(model::priority_frame);
        assert(model::ingested(v, server, f, chances).0 =~= v);
    } else {
        let w = fed(v, f);
        assert(v.ingress.input.bytes() =~= Seq::<u8>::empty());
        retained_segments::law_bytes_are_appended(v.ingress.input, f);
        assert(w.ingress.input.bytes() =~= f);
        let len = payload.len() as u32;
        assert(f.subrange(0, 3) =~= crate::bytes::wire24(len));
        crate::bytes::lemma_wire24(len, f, 0);
        assert(f[3] == kind);
        assert(ingress::front(f, v.local.max_frame_size) == Ok::<FrontView, ConnError>(
            FrontView::Unknown(f.len()),
        ));
        let n = f.len() as int;
        retained_segments::law_taking_keeps_the_rest(w.ingress.input, n);
        assert(w.ingress.input.chunks =~= seq![f]);
        assert(seq![f].drop_first() =~= Seq::<Seq<u8>>::empty());
        assert(collections::advanced(seq![f], n) =~= Seq::<Seq<u8>>::empty()) by {
            reveal_with_fuel(collections::advanced, 2);
        }
        let next = w.consumed(n);
        assert(next =~= v);
        assert(ingress::front(next.ingress.input.bytes(), next.local.max_frame_size) == Ok::<
            FrontView,
            ConnError,
        >(FrontView::Wait));
        assert(model::driven(next, server, chances.drop_first()) == (next, Ok::<(), ConnError>(())));
        assert(model::driven(w, server, chances) == (v, Ok::<(), ConnError>(())));
        assert(w.with_ingress(w.ingress) =~= w);
    }
}

/// Another initial window moves the window of every stream that is open by the difference; where
/// it is wider, it is noted that a window has opened. Another size of the table for header fields
/// is announced with the next block of this end.
pub proof fn law_settings_reach_what_is_open(
    v: ConnView,
    server: bool,
    value: u32,
    id: u32,
    chances: Seq<Chance>,
)
    requires
        waits(v),
        15 <= v.ingress.input.byte_capacity,
        value <= 0x7fff_ffff,
    ensures
        ({
            let o = model::ingested(
                v,
                server,
                framed(4, 0, 0, seq![0u8, 4] + word(value as int)),
                chances,
            );
            let moved = value - v.peer.initial_window_size;
            &&& o.1 is Ok && v.has_stream(id) ==> o.0.has_stream(id)
                && o.0.streams.records[id].send_window.value
                == v.streams.records[id].send_window.value + moved
                && o.0.streams.records[id].stream == v.streams.records[id].stream
            &&& o.1 is Ok && moved > 0 ==> o.0.opened
            &&& o.1 is Ok ==> o.0.send_window == v.send_window
        }),
        ({
            let o = model::ingested(
                v,
                server,
                framed(4, 0, 0, seq![0u8, 1] + word(value as int)),
                chances,
            );
            &&& o.1 is Ok
            &&& o.0.egress.encoder.pending == Some(value as nat)
            &&& o.0.egress.encoder.table.max == value
            &&& o.0.streams == v.streams
        }),
{
    lemma_one_setting(v, server, 4, value, chances);
    lemma_one_setting(v, server, 1, value, chances);
    let moved = value - v.peer.initial_window_size;
    let records = v.streams.records;
    if v.has_stream(id) && stream_registry::windows_move(records, moved) {
        assert(records.contains_key(id));
        assert(stream_registry::windows_moved(records, moved)[id].send_window.value
            == records[id].send_window.value + moved);
    }
}

#[verifier::rlimit(60)]
proof fn lemma_one_setting(
    v: ConnView,
    server: bool,
    number: int,
    value: u32,
    chances: Seq<Chance>,
)
    requires
        waits(v),
        number == 1 || number == 4,
        15 <= v.ingress.input.byte_capacity,
        value <= 0x7fff_ffff,
    ensures
        ({
            let o = model::ingested(
                v,
                server,
                framed(4, 0, 0, seq![0u8, number as u8] + word(value as int)),
                chances,
            );
            let moved = value - v.peer.initial_window_size;
            &&& number == 4 && o.1 is Ok ==> o.0.streams.records
                == stream_registry::windows_moved(v.streams.records, moved)
                && stream_registry::windows_move(v.streams.records, moved) && o.0.send_window
                == v.send_window && (moved > 0 ==> o.0.opened)
            &&& number == 1 ==> o.1 is Ok && o.0.egress.encoder.pending == Some(value as nat)
                && o.0.egress.encoder.table.max == value && o.0.streams == v.streams
        }),
{
    let param = seq![0u8, number as u8] + word(value as int);
    lemma_one_frame(v, server, 4, 0, 0, param, chances);
    reveal(model::settings_frame);
    assert(!frame::flag(0, 1)) by {
        assert(0u8 & 1u8 == 0u8) by (bit_vector);
    }
    assert(param.subrange(0, 2) =~= crate::bytes::wire16(number as u16));
    assert(param.subrange(2, 6) =~= crate::bytes::wire32(value));
    crate::bytes::lemma_wire16(number as u16, param, 0);
    crate::bytes::lemma_wire32(value, param, 2);
    let rest = param.subrange(6, 6);
    assert(frame::settings_in(rest) =~= Seq::empty());
    let one = (frame::setting_of(number as u16), value);
    assert(frame::settings_in(param) =~= seq![one]);
    assert(seq![one].drop_first() =~= Seq::empty());
    assert(settings::applied_all(v.peer, seq![one]) == settings::applied_any(v.peer, one)) by {
        reveal_with_fuel(settings::applied_all, 2);
    }
    assert(seq![one][0] == one);
    if number == 1 {
        assert(model::sets_table_size(seq![one]));
        let o = model::ingested(v, server, framed(4, 0, 0, param), chances);
        assert(stream_registry::windows_moved(v.streams.records, 0) =~= v.streams.records);
    }
}

} // verus!
