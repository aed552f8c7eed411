//! What is fixed for all who speak the protocol: the bytes of frames and of settings, how a stream
//! lives, what is told of an error, and which lists of fields are messages.

use crate::bytes;
use crate::h2::conn::answers;
use crate::h2::error;
use crate::h2::error::ConnError;
use crate::h2::flow;
use crate::h2::frame;
use crate::h2::frame::{ErrorCode, FrameView, HeadView, ParseError, PriorityView, Type};
use crate::h2::hpack::{DecoderError, FieldView};
use crate::h2::ingress;
use crate::h2::settings;
use crate::h2::settings::Settings;
use crate::h2::stream;
use crate::h2::stream::{Event, Side, State, TransitionError};
use crate::h2::validate;
use vstd::prelude::*;

verus! {

/// A number that counts if something holds.
pub open spec fn mark(holds: bool, n: int) -> int {
    if holds {
        n
    } else {
        0
    }
}

/// The five bytes of a priority: the stream that another depends on, alone or not, and a weight.
pub open spec fn priority_octets(p: PriorityView) -> Seq<u8> {
    answers::word(p.dependency + mark(p.exclusive, 0x8000_0000)).push(p.weight)
}

/// Every frame has its type, its flags and its payload on the wire.
#[verifier::rlimit(60)]
pub proof fn law_frames_have_their_bytes(f: FrameView)
    requires
        frame::frame_fits(f),
    ensures
        frame::frame_wire(f) == (match f {
            FrameView::Data { stream, end_stream, payload } => answers::framed(
                0,
                mark(end_stream, 1),
                stream as int,
                payload,
            ),
            FrameView::Headers { stream, end_stream, end_headers, priority, fragment } => {
                answers::framed(
                    1,
                    mark(end_stream, 1) + mark(end_headers, 4) + mark(priority is Some, 32),
                    stream as int,
                    match priority {
                        Some(p) => priority_octets(p) + fragment,
                        None => fragment,
                    },
                )
            },
            FrameView::Priority { stream, fields } => answers::framed(
                2,
                0,
                stream as int,
                priority_octets(fields),
            ),
            FrameView::RstStream { stream, error } => answers::framed(
                3,
                0,
                stream as int,
                answers::word(frame::error_number(error) as int),
            ),
            FrameView::Settings { ack, params } => answers::framed(4, mark(ack, 1), 0, params),
            FrameView::PushPromise { stream, promised, end_headers, fragment } => answers::framed(
                5,
                mark(end_headers, 4),
                stream as int,
                answers::word(promised as int) + fragment,
            ),
            FrameView::Ping { ack, opaque } => answers::framed(6, mark(ack, 1), 0, opaque),
            FrameView::GoAway { last, error, debug } => answers::framed(
                7,
                0,
                0,
                answers::word(last as int) + answers::word(frame::error_number(error) as int)
                    + debug,
            ),
            FrameView::WindowUpdate { stream, increment } => answers::framed(
                8,
                0,
                stream as int,
                answers::word(increment as int),
            ),
            FrameView::Continuation { stream, end_headers, fragment } => answers::framed(
                9,
                mark(end_headers, 4),
                stream as int,
                fragment,
            ),
        }),
{
    answers::lemma_octets(frame::frame_head(f));
    match f {
        FrameView::Headers { priority, .. } => if let Some(p) = priority {
            let n = (p.dependency + mark(p.exclusive, 0x8000_0000)) as u32;
            assert(bytes::wire32(n) =~= answers::word(n as int));
            assert(frame::priority_wire(p) =~= priority_octets(p));
        },
        FrameView::Priority { fields, .. } => {
            let n = (fields.dependency + mark(fields.exclusive, 0x8000_0000)) as u32;
            assert(bytes::wire32(n) =~= answers::word(n as int));
            assert(frame::priority_wire(fields) =~= priority_octets(fields));
        },
        FrameView::RstStream { error, .. } => {
            let n = frame::error_number(error);
            assert(bytes::wire32(n) =~= answers::word(n as int));
        },
        FrameView::PushPromise { promised, .. } => {
            assert(bytes::wire32(promised) =~= answers::word(promised as int));
        },
        FrameView::GoAway { last, error, .. } => {
            let n = frame::error_number(error);
            assert(bytes::wire32(last) =~= answers::word(last as int));
            assert(bytes::wire32(n) =~= answers::word(n as int));
        },
        FrameView::WindowUpdate { increment, .. } => {
            assert(bytes::wire32(increment) =~= answers::word(increment as int));
        },
        _ => {},
    }
}

/// The bytes of a frame are read as that frame, whatever follows.
#[verifier::rlimit(60)]
pub proof fn law_frames_are_read(f: FrameView, rest: Seq<u8>)
    requires
        frame::frame_fits(f),
    ensures
        frame::frame_at(frame::frame_wire(f) + rest) == Ok::<(FrameView, nat), ParseError>(
            (f, frame::frame_wire(f).len()),
        ),
        frame::frame_wire(f).len() >= 9,
{
    frame::law_frames_round_trip(f, rest);
    law_frames_have_their_bytes(f);
}

/// Padding makes no difference to what a frame says.
#[verifier::rlimit(60)]
pub proof fn law_padding_says_nothing(
    id: u32,
    end_stream: bool,
    payload: Seq<u8>,
    padding: Seq<u8>,
)
    requires
        1 <= id <= 0x7fff_ffff,
        padding.len() <= 255,
        1 + payload.len() + padding.len() <= 0xff_ffff,
    ensures
        ({
            let padded = seq![padding.len() as u8] + payload + padding;
            frame::frame_at(answers::framed(0, 8 + mark(end_stream, 1), id as int, padded)) == Ok::<
                (FrameView, nat),
                ParseError,
            >((FrameView::Data { stream: id, end_stream, payload }, (9 + padded.len()) as nat))
        }),
        frame::unpadded(8, seq![padding.len() as u8] + payload + padding) == Some(payload),
{
    let padded = seq![padding.len() as u8] + payload + padding;
    let flags: u8 = (8 + mark(end_stream, 1)) as u8;
    let h = HeadView { length: padded.len() as u32, kind: Type::Data, flags, stream: id };
    answers::lemma_octets(h);
    frame::law_heads_round_trip(h, padded);
    let f = answers::framed(0, flags as int, id as int, padded);
    assert(f.subrange(9, 9 + padded.len() as int) =~= padded);
    assert(8u8 & 8 != 0 && 9u8 & 8 != 0 && 8u8 & 1 == 0 && 9u8 & 1 != 0) by (bit_vector);
    assert(padded.subrange(1, padded.len() - padding.len()) =~= payload);
}

/// How a stream lives. What the peer does:
pub proof fn law_streams_live_as_the_peer_says(end: bool)
    ensures
        stream::transition(State::Idle, Event::Headers { end_stream: false }, Side::Remote) == Ok::<
            State,
            TransitionError,
        >(State::Open),
        stream::transition(State::Idle, Event::Headers { end_stream: true }, Side::Remote) == Ok::<
            State,
            TransitionError,
        >(State::HalfClosedRemote),
        stream::transition(State::Idle, Event::Data { end_stream: end }, Side::Remote) == Err::<
            State,
            TransitionError,
        >(TransitionError::Protocol),
        stream::transition(State::Open, Event::Headers { end_stream: true }, Side::Remote) == Ok::<
            State,
            TransitionError,
        >(State::HalfClosedRemote),
        stream::transition(State::Open, Event::Data { end_stream: true }, Side::Remote) == Ok::<
            State,
            TransitionError,
        >(State::HalfClosedRemote),
        stream::transition(State::Open, Event::Headers { end_stream: false }, Side::Remote) == Ok::<
            State,
            TransitionError,
        >(State::Open),
        stream::transition(State::Open, Event::Data { end_stream: false }, Side::Remote) == Ok::<
            State,
            TransitionError,
        >(State::Open),
        stream::transition(State::HalfClosedLocal, Event::Data { end_stream: false }, Side::Remote)
            == Ok::<State, TransitionError>(State::HalfClosedLocal),
        stream::transition(
            State::HalfClosedLocal,
            Event::Headers { end_stream: false },
            Side::Remote,
        ) == Ok::<State, TransitionError>(State::HalfClosedLocal),
        stream::transition(State::HalfClosedLocal, Event::Data { end_stream: true }, Side::Remote)
            == Ok::<State, TransitionError>(State::Closed),
        stream::transition(
            State::HalfClosedLocal,
            Event::Headers { end_stream: true },
            Side::Remote,
        ) == Ok::<State, TransitionError>(State::Closed),
        stream::transition(State::HalfClosedRemote, Event::Data { end_stream: end }, Side::Remote)
            == Err::<State, TransitionError>(TransitionError::StreamClosed),
        stream::transition(
            State::HalfClosedRemote,
            Event::Headers { end_stream: end },
            Side::Remote,
        ) == Err::<State, TransitionError>(TransitionError::StreamClosed),
        stream::transition(
            State::ReservedRemote,
            Event::Headers { end_stream: false },
            Side::Remote,
        ) == Ok::<State, TransitionError>(State::HalfClosedLocal),
        stream::transition(
            State::ReservedRemote,
            Event::Headers { end_stream: true },
            Side::Remote,
        ) == Ok::<State, TransitionError>(State::Closed),
        stream::transition(State::ReservedRemote, Event::Data { end_stream: end }, Side::Remote)
            == Err::<State, TransitionError>(TransitionError::Protocol),
        stream::transition(State::ReservedLocal, Event::Headers { end_stream: end }, Side::Remote)
            == Err::<State, TransitionError>(TransitionError::Protocol),
{
}

/// How a stream lives. What this end does:
pub proof fn law_streams_live_as_this_end_says(end: bool)
    ensures
        stream::transition(State::Idle, Event::Headers { end_stream: false }, Side::Local) == Ok::<
            State,
            TransitionError,
        >(State::Open),
        stream::transition(State::Idle, Event::Headers { end_stream: true }, Side::Local) == Ok::<
            State,
            TransitionError,
        >(State::HalfClosedLocal),
        stream::transition(State::Open, Event::Headers { end_stream: true }, Side::Local) == Ok::<
            State,
            TransitionError,
        >(State::HalfClosedLocal),
        stream::transition(State::Open, Event::Data { end_stream: true }, Side::Local) == Ok::<
            State,
            TransitionError,
        >(State::HalfClosedLocal),
        stream::transition(State::Open, Event::Data { end_stream: false }, Side::Local) == Ok::<
            State,
            TransitionError,
        >(State::Open),
        stream::transition(State::Open, Event::Headers { end_stream: false }, Side::Local) == Ok::<
            State,
            TransitionError,
        >(State::Open),
        stream::transition(State::HalfClosedRemote, Event::Data { end_stream: false }, Side::Local)
            == Ok::<State, TransitionError>(State::HalfClosedRemote),
        stream::transition(
            State::HalfClosedRemote,
            Event::Headers { end_stream: false },
            Side::Local,
        ) == Ok::<State, TransitionError>(State::HalfClosedRemote),
        stream::transition(State::HalfClosedRemote, Event::Data { end_stream: true }, Side::Local)
            == Ok::<State, TransitionError>(State::Closed),
        stream::transition(
            State::HalfClosedRemote,
            Event::Headers { end_stream: true },
            Side::Local,
        ) == Ok::<State, TransitionError>(State::Closed),
        stream::transition(State::HalfClosedLocal, Event::Data { end_stream: end }, Side::Local)
            == Err::<State, TransitionError>(TransitionError::StreamClosed),
        stream::transition(State::HalfClosedLocal, Event::Headers { end_stream: end }, Side::Local)
            == Err::<State, TransitionError>(TransitionError::StreamClosed),
{
}

/// What is announced when settings are announced: each with its number in two bytes and its value
/// in four; a limit that is not set is not announced.
pub proof fn law_settings_have_their_bytes(s: Settings)
    ensures
        settings::settings_wire(s) == seq![0u8, 1] + answers::word(s.header_table_size as int)
            + seq![0u8, 2] + answers::word(mark(s.enable_push, 1)) + (match s.max_concurrent_streams {
            Some(n) => seq![0u8, 3] + answers::word(n as int),
            None => Seq::empty(),
        }) + seq![0u8, 4] + answers::word(s.initial_window_size as int) + seq![0u8, 5]
            + answers::word(s.max_frame_size as int) + (match s.max_header_list_size {
            Some(n) => seq![0u8, 6] + answers::word(n as int),
            None => Seq::empty(),
        }),
{
    let push: u32 = if s.enable_push {
        1
    } else {
        0
    };
    assert(bytes::wire32(push) =~= answers::word(push as int));
    assert(bytes::wire32(s.header_table_size) =~= answers::word(s.header_table_size as int));
    assert(bytes::wire32(s.initial_window_size) =~= answers::word(s.initial_window_size as int));
    assert(bytes::wire32(s.max_frame_size) =~= answers::word(s.max_frame_size as int));
    if let Some(n) = s.max_concurrent_streams {
        assert(bytes::wire32(n) =~= answers::word(n as int));
    }
    if let Some(n) = s.max_header_list_size {
        assert(bytes::wire32(n) =~= answers::word(n as int));
    }
    let all = seq![0u8, 1] + answers::word(s.header_table_size as int) + seq![0u8, 2]
        + answers::word(mark(s.enable_push, 1)) + (match s.max_concurrent_streams {
        Some(n) => seq![0u8, 3] + answers::word(n as int),
        None => Seq::empty(),
    }) + seq![0u8, 4] + answers::word(s.initial_window_size as int) + seq![0u8, 5] + answers::word(
        s.max_frame_size as int,
    ) + (match s.max_header_list_size {
        Some(n) => seq![0u8, 6] + answers::word(n as int),
        None => Seq::empty(),
    });
    assert(settings::settings_wire(s) =~= all);
}

/// What holds before anything is announced.
pub proof fn law_defaults_are_those_of_the_protocol()
    ensures
        ({
            let s = settings::default_settings();
            &&& s.header_table_size == 4096
            &&& s.enable_push
            &&& s.max_concurrent_streams is None
            &&& s.initial_window_size == 65535
            &&& s.max_frame_size == 16384
            &&& s.max_header_list_size is None
        }),
        flow::Window::INITIAL == 65535,
        flow::Window::MAX == 2147483647,
{
}

/// What the peer is told of an error of the connection.
pub proof fn law_errors_are_told_as_they_are(e: DecoderError, code: ErrorCode)
    ensures
        error::code_for(ConnError::BadPreface) == ErrorCode::ProtocolError,
        error::code_for(ConnError::BadSettings) == ErrorCode::ProtocolError,
        error::code_for(ConnError::Protocol) == ErrorCode::ProtocolError,
        error::code_for(ConnError::Continuation) == ErrorCode::ProtocolError,
        error::code_for(ConnError::BadStream) == ErrorCode::ProtocolError,
        error::code_for(ConnError::StreamGoneAway) == ErrorCode::ProtocolError,
        error::code_for(ConnError::ParseError(ParseError::Protocol)) == ErrorCode::ProtocolError,
        error::code_for(ConnError::ParseError(ParseError::Padding)) == ErrorCode::ProtocolError,
        error::code_for(ConnError::ParseError(ParseError::ZeroIncrement))
            == ErrorCode::ProtocolError,
        error::code_for(ConnError::ParseError(ParseError::FrameSize)) == ErrorCode::FrameSize,
        error::code_for(ConnError::FrameSize) == ErrorCode::FrameSize,
        error::code_for(ConnError::FlowControl) == ErrorCode::FlowControl,
        error::code_for(ConnError::StreamClosed) == ErrorCode::StreamClosed,
        error::code_for(ConnError::Hpack(e)) == ErrorCode::Compression,
        error::code_for(ConnError::GoAwayReceived(code)) == code,
        error::code_for(ConnError::StreamLimit) == ErrorCode::RefusedStream,
        error::code_for(ConnError::HeaderListTooLarge) == ErrorCode::EnhanceYourCalm,
        error::code_for(ConnError::Overload) == ErrorCode::EnhanceYourCalm,
        error::parse_failure(ParseError::BadLength) == ConnError::FrameSize,
        error::parse_failure(ParseError::FrameSize) == ConnError::ParseError(
            ParseError::FrameSize,
        ),
        error::parse_failure(ParseError::Protocol) == ConnError::ParseError(ParseError::Protocol),
        error::parse_failure(ParseError::Padding) == ConnError::ParseError(ParseError::Padding),
{
}

/// The bytes that open a connection.
pub proof fn law_the_preface_is_fixed()
    ensures
        ingress::preface() == seq![
            0x50u8, 0x52, 0x49, 0x20, 0x2a, 0x20, 0x48, 0x54, 0x54, 0x50, 0x2f, 0x32, 0x2e, 0x30,
            0x0d, 0x0a, 0x0d, 0x0a, 0x53, 0x4d, 0x0d, 0x0a, 0x0d, 0x0a,
        ],
{
    reveal_strlit("PRI * HTTP/2.0\r\n\r\nSM\r\n\r\n");
    bytes::lemma_text("PRI * HTTP/2.0\r\n\r\nSM\r\n\r\n");
    ingress::lemma_preface_len();
    assert(ingress::preface() =~= seq![
        0x50u8, 0x52, 0x49, 0x20, 0x2a, 0x20, 0x48, 0x54, 0x54, 0x50, 0x2f, 0x32, 0x2e, 0x30,
        0x0d, 0x0a, 0x0d, 0x0a, 0x53, 0x4d, 0x0d, 0x0a, 0x0d, 0x0a,
    ]);
}

/// How often a name stands in a list.
pub open spec fn times(list: Seq<FieldView>, name: Seq<u8>) -> nat
    decreases list.len(),
{
    if list.len() == 0 {
        0
    } else {
        times(list.drop_last(), name) + (if list.last().name == name {
            1nat
        } else {
            0
        })
    }
}

proof fn lemma_times(list: Seq<FieldView>, name: Seq<u8>)
    requires
        forall|i: int, j: int|
            #![trigger list[i], list[j]]
            0 <= i < j < list.len() && list[i].name == name ==> list[j].name != name,
    ensures
        times(list, name) <= 1,
        (exists|i: int| 0 <= i < list.len() && (#[trigger] list[i]).name == name) ==> times(
            list,
            name,
        ) == 1,
        times(list, name) == 1 ==> exists|i: int|
            0 <= i < list.len() && (#[trigger] list[i]).name == name,
    decreases list.len(),
{
    if list.len() > 0 {
        let part = list.drop_last();
        let n = list.len() - 1;
        assert forall|i: int, j: int|
            #![trigger part[i], part[j]]
            0 <= i < j < part.len() && part[i].name == name implies part[j].name != name by {
            assert(list[i] == part[i] && list[j] == part[j]);
        }
        lemma_times(part, name);
        if list.last().name == name {
            assert(list[n].name == name);
            if exists|i: int| 0 <= i < part.len() && (#[trigger] part[i]).name == name {
                let i = choose|i: int| 0 <= i < part.len() && (#[trigger] part[i]).name == name;
                assert(list[i] == part[i]);
                assert(list[n].name != name);
            }
            assert(times(part, name) == 0);
        } else {
            if exists|i: int| 0 <= i < list.len() && (#[trigger] list[i]).name == name {
                let i = choose|i: int| 0 <= i < list.len() && (#[trigger] list[i]).name == name;
                assert(part[i] == list[i]);
            }
            if times(part, name) == 1 {
                let i = choose|i: int| 0 <= i < part.len() && (#[trigger] part[i]).name == name;
                assert(list[i] == part[i]);
            }
        }
    }
}

/// What every list of fields that is let through has: no empty name, no name with an upper-case
/// letter, none that speaks of the connection, and no field whose name begins with a colon behind
/// another. A request names its method, its scheme and its path once each, and a response its
/// status; what ends a message has no such field.
pub proof fn law_messages_keep_the_rules(
    list: Seq<FieldView>,
    request: bool,
    trailing: bool,
    i: int,
    j: int,
)
    requires
        validate::list_valid(list, request, trailing),
        0 <= i < list.len(),
        0 <= j < list.len(),
    ensures
        list[i].name.len() > 0,
        list[i].name[0] != 0x3a ==> forall|k: int|
            0 <= k < list[i].name.len() ==> !(0x41 <= #[trigger] list[i].name[k] <= 0x5a),
        list[i].name != bytes::text("connection"),
        list[i].name != bytes::text("keep-alive"),
        list[i].name != bytes::text("proxy-connection"),
        list[i].name != bytes::text("transfer-encoding"),
        list[i].name != bytes::text("upgrade"),
        list[i].name == bytes::text("te") ==> list[i].value == bytes::text("trailers"),
        i < j && list[j].name[0] == 0x3a ==> list[i].name[0] == 0x3a,
        trailing ==> list[i].name[0] != 0x3a,
        list[i].name[0] == 0x3a && request ==> list[i].name == bytes::text(":method")
            || list[i].name == bytes::text(":scheme") || list[i].name == bytes::text(":path")
            || list[i].name == bytes::text(":authority") || list[i].name == bytes::text(
            ":protocol",
        ),
        list[i].name[0] == 0x3a && !request ==> list[i].name == bytes::text(":status"),
        request && !trailing ==> times(list, bytes::text(":method")) == 1 && times(
            list,
            bytes::text(":scheme"),
        ) == 1 && times(list, bytes::text(":path")) == 1,
        !request && !trailing ==> times(list, bytes::text(":status")) == 1,
{
    assert(validate::field_allowed(list[i], request, trailing));
    assert(validate::field_allowed(list[j], request, trailing));
    if i < j && list[j].name[0] == 0x3a {
        assert(validate::is_pseudo(list[j]));
        assert(validate::is_pseudo(list[i]));
    }
    lemma_spelled();
    if !trailing {
        if request {
            lemma_times(list, bytes::text(":method"));
            lemma_times(list, bytes::text(":scheme"));
            lemma_times(list, bytes::text(":path"));
        } else {
            lemma_times(list, bytes::text(":status"));
        }
    }
}

proof fn lemma_spelled()
    ensures
        bytes::text("connection")[0] != 0x3a,
        bytes::text("keep-alive")[0] != 0x3a,
        bytes::text("proxy-connection")[0] != 0x3a,
        bytes::text("transfer-encoding")[0] != 0x3a,
        bytes::text("upgrade")[0] != 0x3a,
        bytes::text("te")[0] != 0x3a,
        bytes::text("te").len() > 0,
{
    reveal_strlit("connection");
    reveal_strlit("keep-alive");
    reveal_strlit("proxy-connection");
    reveal_strlit("transfer-encoding");
    reveal_strlit("upgrade");
    reveal_strlit("te");
    bytes::lemma_text("connection");
    bytes::lemma_text("keep-alive");
    bytes::lemma_text("proxy-connection");
    bytes::lemma_text("transfer-encoding");
    bytes::lemma_text("upgrade");
    bytes::lemma_text("te");
}

/// Whether a field has a name in small letters that neither begins with a colon nor speaks of the
/// connection.
pub open spec fn ordinary(f: FieldView) -> bool {
    &&& f.name.len() > 0
    &&& f.name[0] != 0x3a
    &&& forall|k: int| 0 <= k < f.name.len() ==> !(0x41 <= #[trigger] f.name[k] <= 0x5a)
    &&& f.name != bytes::text("connection")
    &&& f.name != bytes::text("keep-alive")
    &&& f.name != bytes::text("proxy-connection")
    &&& f.name != bytes::text("transfer-encoding")
    &&& f.name != bytes::text("upgrade")
    &&& f.name == bytes::text("te") ==> f.value == bytes::text("trailers")
}

proof fn lemma_ordinary(list: Seq<FieldView>, request: bool)
    requires
        forall|i: int| 0 <= i < list.len() ==> ordinary(#[trigger] list[i]),
    ensures
        validate::list_valid(list, request, true),
{
    assert forall|i: int| 0 <= i < list.len() implies #[trigger] validate::field_allowed(
        list[i],
        request,
        true,
    ) by {
        assert(ordinary(list[i]));
    }
    assert forall|i: int, j: int| 0 <= i < j < list.len() && #[trigger] validate::is_pseudo(
        list[j],
    ) implies #[trigger] validate::is_pseudo(list[i]) by {
        assert(ordinary(list[j]));
    }
    assert forall|i: int, j: int|
        #![trigger list[i], list[j]]
        0 <= i < j < list.len() && validate::is_single(list[i].name, request) implies list[i].name
        != list[j].name by {
        assert(ordinary(list[i]));
        lemma_colons();
    }
}

proof fn lemma_colons()
    ensures
        bytes::text(":method").len() > 0 && bytes::text(":method")[0] == 0x3a,
        bytes::text(":scheme").len() > 0 && bytes::text(":scheme")[0] == 0x3a,
        bytes::text(":path").len() > 0 && bytes::text(":path")[0] == 0x3a,
        bytes::text(":status").len() > 0 && bytes::text(":status")[0] == 0x3a,
        bytes::text(":method") != bytes::text(":scheme"),
        bytes::text(":method") != bytes::text(":path"),
        bytes::text(":scheme") != bytes::text(":path"),
{
    reveal_strlit(":method");
    reveal_strlit(":scheme");
    reveal_strlit(":path");
    reveal_strlit(":status");
    bytes::lemma_text(":method");
    bytes::lemma_text(":scheme");
    bytes::lemma_text(":path");
    bytes::lemma_text(":status");
    assert(bytes::text(":method")[1] == 0x6d);
    assert(bytes::text(":scheme")[1] == 0x73);
    assert(bytes::text(":path")[1] == 0x70);
}

/// What is a message: ordinary fields end one; a method, a scheme and a path that say something
/// and then ordinary fields are a request, and a status and then ordinary fields are a response.
pub proof fn law_messages_are_let_through(
    method: Seq<u8>,
    scheme: Seq<u8>,
    path: Seq<u8>,
    status: Seq<u8>,
    list: Seq<FieldView>,
)
    requires
        method.len() > 0,
        scheme.len() > 0,
        path.len() > 0,
        forall|i: int| 0 <= i < list.len() ==> ordinary(#[trigger] list[i]),
    ensures
        validate::list_valid(list, true, true),
        validate::list_valid(list, false, true),
        validate::list_valid(
            seq![
                FieldView { name: bytes::text(":method"), value: method },
                FieldView { name: bytes::text(":scheme"), value: scheme },
                FieldView { name: bytes::text(":path"), value: path },
            ] + list,
            true,
            false,
        ),
        validate::list_valid(
            seq![FieldView { name: bytes::text(":status"), value: status }] + list,
            false,
            false,
        ),
{
    lemma_colons();
    lemma_ordinary(list, true);
    lemma_ordinary(list, false);
    let head = seq![
        FieldView { name: bytes::text(":method"), value: method },
        FieldView { name: bytes::text(":scheme"), value: scheme },
        FieldView { name: bytes::text(":path"), value: path },
    ];
    lemma_headed(head, list, true);
    let all = head + list;
    assert(all[0] == head[0] && all[1] == head[1] && all[2] == head[2]);
    let one = seq![FieldView { name: bytes::text(":status"), value: status }];
    lemma_headed(one, list, false);
    assert((one + list)[0] == one[0]);
}

proof fn lemma_headed(head: Seq<FieldView>, list: Seq<FieldView>, request: bool)
    requires
        forall|i: int| 0 <= i < list.len() ==> ordinary(#[trigger] list[i]),
        forall|i: int|
            0 <= i < head.len() ==> validate::is_single((#[trigger] head[i]).name, request)
                && validate::is_pseudo(head[i]),
        forall|i: int, j: int|
            #![trigger head[i], head[j]]
            0 <= i < j < head.len() ==> head[i].name != head[j].name,
    ensures
        validate::prefix_valid(head + list, request, false),
{
    let all = head + list;
    let n = head.len() as int;
    assert forall|i: int| 0 <= i < all.len() implies all[i] == (if i < n {
        head[i]
    } else {
        list[i - n]
    }) by {}
    assert forall|i: int| 0 <= i < all.len() implies #[trigger] validate::field_allowed(
        all[i],
        request,
        false,
    ) by {
        if i >= n {
            assert(ordinary(list[i - n]));
        }
    }
    assert forall|i: int, j: int| 0 <= i < j < all.len() && #[trigger] validate::is_pseudo(
        all[j],
    ) implies #[trigger] validate::is_pseudo(all[i]) by {
        if j >= n {
            assert(ordinary(list[j - n]));
        }
    }
    assert forall|i: int, j: int|
        #![trigger all[i], all[j]]
        0 <= i < j < all.len() && validate::is_single(all[i].name, request) implies all[i].name
        != all[j].name by {
        lemma_colons();
        if j >= n {
            assert(ordinary(list[j - n]));
        }
        if i >= n {
            assert(ordinary(list[i - n]));
        }
    }
}

} // verus!
