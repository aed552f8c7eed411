//! The frame layer: nine bytes of header followed by a payload.

use crate::bytes;
use crate::bytes::{push_bytes, push_u24, push_u32, read_u16, read_u24, read_u32};
use crate::h2::stream::StreamId;
use vstd::prelude::*;

verus! {

/// The length of a frame payload: at most 24 bits.
#[derive(Copy, Clone, Debug, Default, PartialEq, Eq, PartialOrd, Ord, Hash, Structural)]
pub struct FrameLength(u32);

impl FrameLength {
    pub const MAX: u32 = 0x00ff_ffff;

    pub closed spec fn value(self) -> u32 {
        self.0
    }

    #[verifier::type_invariant]
    spec fn inv(self) -> bool {
        self.0 <= 0x00ff_ffff
    }

    pub fn new(value: u32) -> (r: Option<Self>)
        ensures
            r is Some <==> value <= Self::MAX,
            r matches Some(length) ==> length.value() == value,
    {
        if value <= Self::MAX {
            Some(FrameLength(value))
        } else {
            None
        }
    }

    pub fn from_usize(value: usize) -> (r: Option<Self>)
        ensures
            r is Some <==> value <= Self::MAX,
            r matches Some(length) ==> length.value() == value,
    {
        if value <= Self::MAX as usize {
            Some(FrameLength(value as u32))
        } else {
            None
        }
    }

    pub fn as_u32(self) -> (r: u32)
        ensures
            r == self.value(),
            r <= Self::MAX,
    {
        proof {
            use_type_invariant(&self);
        }
        self.0
    }

    pub fn as_usize(self) -> (r: usize)
        ensures
            r == self.value(),
            r <= Self::MAX,
    {
        proof {
            use_type_invariant(&self);
        }
        self.0 as usize
    }
}

/// A window increment: 31 bits and never zero.
#[derive(Copy, Clone, Debug, PartialEq, Eq, PartialOrd, Ord, Hash, Structural)]
pub struct WindowIncrement(u32);

impl WindowIncrement {
    pub const MAX: u32 = 0x7fff_ffff;

    pub closed spec fn value(self) -> u32 {
        self.0
    }

    #[verifier::type_invariant]
    spec fn inv(self) -> bool {
        1 <= self.0 <= 0x7fff_ffff
    }

    pub fn new(value: u32) -> (r: Option<Self>)
        ensures
            r is Some <==> 1 <= value <= Self::MAX,
            r matches Some(increment) ==> increment.value() == value,
    {
        if 1 <= value && value <= Self::MAX {
            Some(WindowIncrement(value))
        } else {
            None
        }
    }

    pub fn get(self) -> (r: u32)
        ensures
            r == self.value(),
            1 <= r <= Self::MAX,
    {
        proof {
            use_type_invariant(&self);
        }
        self.0
    }
}

#[derive(Copy, Clone, Debug, PartialEq, Eq, Structural)]
pub enum Type {
    Data,
    Headers,
    Priority,
    RstStream,
    Settings,
    PushPromise,
    Ping,
    GoAway,
    WindowUpdate,
    Continuation,
}

/// The number of a frame type on the wire.
pub open spec fn type_number(kind: Type) -> u8 {
    match kind {
        Type::Data => 0,
        Type::Headers => 1,
        Type::Priority => 2,
        Type::RstStream => 3,
        Type::Settings => 4,
        Type::PushPromise => 5,
        Type::Ping => 6,
        Type::GoAway => 7,
        Type::WindowUpdate => 8,
        Type::Continuation => 9,
    }
}

impl Type {
    pub fn from_u8(byte: u8) -> (r: Result<Self, u8>)
        ensures
            r matches Ok(kind) ==> type_number(kind) == byte,
            r matches Err(other) ==> other == byte && byte > 9,
    {
        match byte {
            0x0 => Ok(Type::Data),
            0x1 => Ok(Type::Headers),
            0x2 => Ok(Type::Priority),
            0x3 => Ok(Type::RstStream),
            0x4 => Ok(Type::Settings),
            0x5 => Ok(Type::PushPromise),
            0x6 => Ok(Type::Ping),
            0x7 => Ok(Type::GoAway),
            0x8 => Ok(Type::WindowUpdate),
            0x9 => Ok(Type::Continuation),
            other => Err(other),
        }
    }

    pub fn as_u8(self) -> (r: u8)
        ensures
            r == type_number(self),
    {
        match self {
            Type::Data => 0,
            Type::Headers => 1,
            Type::Priority => 2,
            Type::RstStream => 3,
            Type::Settings => 4,
            Type::PushPromise => 5,
            Type::Ping => 6,
            Type::GoAway => 7,
            Type::WindowUpdate => 8,
            Type::Continuation => 9,
        }
    }
}

#[derive(Copy, Clone, Debug, Default, PartialEq, Eq, Structural)]
pub struct Flags(pub u8);

/// Whether one of the bits of `bit` is set in `flags`.
pub open spec fn flag(flags: u8, bit: u8) -> bool {
    flags & bit != 0
}

/// The payload without its padding: a padded payload starts with the length of the padding
/// at its end. `None` where the padding does not fit.
pub open spec fn unpadded(flags: u8, payload: Seq<u8>) -> Option<Seq<u8>> {
    if !flag(flags, Flags::PADDED) {
        Some(payload)
    } else if payload.len() == 0 || 1 + payload[0] > payload.len() {
        None
    } else {
        Some(payload.subrange(1, payload.len() - payload[0]))
    }
}

impl Flags {
    pub const END_STREAM: u8 = 0x1;

    pub const ACK: u8 = 0x1;

    pub const END_HEADERS: u8 = 0x4;

    pub const PADDED: u8 = 0x8;

    pub const PRIORITY: u8 = 0x20;

    pub fn has(self, bit: u8) -> (r: bool)
        ensures
            r == flag(self.0, bit),
    {
        (self.0 & bit) != 0
    }

    pub fn strip<'a>(self, payload: &'a [u8]) -> (r: Result<&'a [u8], ParseError>)
        ensures
            match r {
                Ok(body) => unpadded(self.0, payload@) == Some(body@),
                Err(error) => unpadded(self.0, payload@) is None && error is Padding,
            },
    {
        if !self.has(Self::PADDED) {
            return Ok(payload);
        }
        if payload.len() == 0 {
            return Err(ParseError::Padding);
        }
        let pad_len: usize = payload[0] as usize;
        if 1 + pad_len > payload.len() {
            return Err(ParseError::Padding);
        }
        Ok(&payload[1..payload.len() - pad_len])
    }
}

/// The flag byte for the marks that a frame carries.
pub open spec fn flag_bits(end_stream: bool, end_headers: bool, priority: bool) -> u8 {
    ((if end_stream {
        1int
    } else {
        0
    }) + (if end_headers {
        4int
    } else {
        0
    }) + (if priority {
        0x20int
    } else {
        0
    })) as u8
}

pub proof fn lemma_flag_bits(end_stream: bool, end_headers: bool, priority: bool)
    ensures
        flag(flag_bits(end_stream, end_headers, priority), 0x1) == end_stream,
        flag(flag_bits(end_stream, end_headers, priority), 0x4) == end_headers,
        flag(flag_bits(end_stream, end_headers, priority), 0x20) == priority,
        !flag(flag_bits(end_stream, end_headers, priority), 0x8),
{
    assert(0u8 & 1u8 == 0 && 1u8 & 1u8 != 0 && 4u8 & 1u8 == 0 && 5u8 & 1u8 != 0 && 0x20u8 & 1u8
        == 0 && 0x21u8 & 1u8 != 0 && 0x24u8 & 1u8 == 0 && 0x25u8 & 1u8 != 0) by (bit_vector);
    assert(0u8 & 4u8 == 0 && 1u8 & 4u8 == 0 && 4u8 & 4u8 != 0 && 5u8 & 4u8 != 0 && 0x20u8 & 4u8
        == 0 && 0x21u8 & 4u8 == 0 && 0x24u8 & 4u8 != 0 && 0x25u8 & 4u8 != 0) by (bit_vector);
    assert(0u8 & 0x20u8 == 0 && 1u8 & 0x20u8 == 0 && 4u8 & 0x20u8 == 0 && 5u8 & 0x20u8 == 0
        && 0x20u8 & 0x20u8 != 0 && 0x21u8 & 0x20u8 != 0 && 0x24u8 & 0x20u8 != 0 && 0x25u8 & 0x20u8
        != 0) by (bit_vector);
    assert(0u8 & 8u8 == 0 && 1u8 & 8u8 == 0 && 4u8 & 8u8 == 0 && 5u8 & 8u8 == 0 && 0x20u8 & 8u8
        == 0 && 0x21u8 & 8u8 == 0 && 0x24u8 & 8u8 == 0 && 0x25u8 & 8u8 == 0) by (bit_vector);
}

fn make_flags(end_stream: bool, end_headers: bool, priority: bool) -> (r: Flags)
    ensures
        r.0 == flag_bits(end_stream, end_headers, priority),
{
    let a: u8 = if end_stream {
        Flags::END_STREAM
    } else {
        0
    };
    let b: u8 = if end_headers {
        Flags::END_HEADERS
    } else {
        0
    };
    let c: u8 = if priority {
        Flags::PRIORITY
    } else {
        0
    };
    Flags(a + b + c)
}

#[derive(Copy, Clone, Debug, PartialEq, Eq, Structural)]
pub enum ErrorCode {
    NoError,
    ProtocolError,
    InternalError,
    FlowControl,
    SettingsTimeout,
    StreamClosed,
    FrameSize,
    RefusedStream,
    Cancel,
    Compression,
    Connect,
    EnhanceYourCalm,
    InadequateSecurity,
    Http11Required,
}

/// The number of an error on the wire.
pub open spec fn error_number(error: ErrorCode) -> u32 {
    match error {
        ErrorCode::NoError => 0x0,
        ErrorCode::ProtocolError => 0x1,
        ErrorCode::InternalError => 0x2,
        ErrorCode::FlowControl => 0x3,
        ErrorCode::SettingsTimeout => 0x4,
        ErrorCode::StreamClosed => 0x5,
        ErrorCode::FrameSize => 0x6,
        ErrorCode::RefusedStream => 0x7,
        ErrorCode::Cancel => 0x8,
        ErrorCode::Compression => 0x9,
        ErrorCode::Connect => 0xa,
        ErrorCode::EnhanceYourCalm => 0xb,
        ErrorCode::InadequateSecurity => 0xc,
        ErrorCode::Http11Required => 0xd,
    }
}

/// The error with a number on the wire. An unknown number stands for an internal error.
pub open spec fn error_of(value: u32) -> ErrorCode {
    if value == 0x0 {
        ErrorCode::NoError
    } else if value == 0x1 {
        ErrorCode::ProtocolError
    } else if value == 0x3 {
        ErrorCode::FlowControl
    } else if value == 0x4 {
        ErrorCode::SettingsTimeout
    } else if value == 0x5 {
        ErrorCode::StreamClosed
    } else if value == 0x6 {
        ErrorCode::FrameSize
    } else if value == 0x7 {
        ErrorCode::RefusedStream
    } else if value == 0x8 {
        ErrorCode::Cancel
    } else if value == 0x9 {
        ErrorCode::Compression
    } else if value == 0xa {
        ErrorCode::Connect
    } else if value == 0xb {
        ErrorCode::EnhanceYourCalm
    } else if value == 0xc {
        ErrorCode::InadequateSecurity
    } else if value == 0xd {
        ErrorCode::Http11Required
    } else {
        ErrorCode::InternalError
    }
}

impl ErrorCode {
    pub fn from_u32(value: u32) -> (r: Self)
        ensures
            r == error_of(value),
    {
        match value {
            0x0 => ErrorCode::NoError,
            0x1 => ErrorCode::ProtocolError,
            0x2 => ErrorCode::InternalError,
            0x3 => ErrorCode::FlowControl,
            0x4 => ErrorCode::SettingsTimeout,
            0x5 => ErrorCode::StreamClosed,
            0x6 => ErrorCode::FrameSize,
            0x7 => ErrorCode::RefusedStream,
            0x8 => ErrorCode::Cancel,
            0x9 => ErrorCode::Compression,
            0xa => ErrorCode::Connect,
            0xb => ErrorCode::EnhanceYourCalm,
            0xc => ErrorCode::InadequateSecurity,
            0xd => ErrorCode::Http11Required,
            _ => ErrorCode::InternalError,
        }
    }

    pub fn as_u32(self) -> (r: u32)
        ensures
            r == error_number(self),
    {
        match self {
            ErrorCode::NoError => 0x0,
            ErrorCode::ProtocolError => 0x1,
            ErrorCode::InternalError => 0x2,
            ErrorCode::FlowControl => 0x3,
            ErrorCode::SettingsTimeout => 0x4,
            ErrorCode::StreamClosed => 0x5,
            ErrorCode::FrameSize => 0x6,
            ErrorCode::RefusedStream => 0x7,
            ErrorCode::Cancel => 0x8,
            ErrorCode::Compression => 0x9,
            ErrorCode::Connect => 0xa,
            ErrorCode::EnhanceYourCalm => 0xb,
            ErrorCode::InadequateSecurity => 0xc,
            ErrorCode::Http11Required => 0xd,
        }
    }
}

/// Every error survives the wire.
pub proof fn law_error_codes_round_trip(error: ErrorCode)
    ensures
        error_of(error_number(error)) == error,
{
}

#[derive(Copy, Clone, Debug, PartialEq, Eq, Structural)]
pub enum SettingId {
    HeaderTableSize,
    EnablePush,
    MaxConcurrentStreams,
    InitialWindowSize,
    MaxFrameSize,
    MaxHeaderListSize,
}

/// The number of a setting on the wire.
pub open spec fn setting_number(id: SettingId) -> u16 {
    match id {
        SettingId::HeaderTableSize => 0x1,
        SettingId::EnablePush => 0x2,
        SettingId::MaxConcurrentStreams => 0x3,
        SettingId::InitialWindowSize => 0x4,
        SettingId::MaxFrameSize => 0x5,
        SettingId::MaxHeaderListSize => 0x6,
    }
}

/// The setting with a number on the wire, if it is known.
pub open spec fn setting_of(value: u16) -> Option<SettingId> {
    if value == 0x1 {
        Some(SettingId::HeaderTableSize)
    } else if value == 0x2 {
        Some(SettingId::EnablePush)
    } else if value == 0x3 {
        Some(SettingId::MaxConcurrentStreams)
    } else if value == 0x4 {
        Some(SettingId::InitialWindowSize)
    } else if value == 0x5 {
        Some(SettingId::MaxFrameSize)
    } else if value == 0x6 {
        Some(SettingId::MaxHeaderListSize)
    } else {
        None
    }
}

impl SettingId {
    pub fn from_u16(value: u16) -> (r: Option<Self>)
        ensures
            r == setting_of(value),
    {
        match value {
            0x1 => Some(SettingId::HeaderTableSize),
            0x2 => Some(SettingId::EnablePush),
            0x3 => Some(SettingId::MaxConcurrentStreams),
            0x4 => Some(SettingId::InitialWindowSize),
            0x5 => Some(SettingId::MaxFrameSize),
            0x6 => Some(SettingId::MaxHeaderListSize),
            _ => None,
        }
    }

    pub fn as_u16(self) -> (r: u16)
        ensures
            r == setting_number(self),
    {
        match self {
            SettingId::HeaderTableSize => 0x1,
            SettingId::EnablePush => 0x2,
            SettingId::MaxConcurrentStreams => 0x3,
            SettingId::InitialWindowSize => 0x4,
            SettingId::MaxFrameSize => 0x5,
            SettingId::MaxHeaderListSize => 0x6,
        }
    }
}

#[derive(Copy, Clone, Debug, PartialEq, Eq, Structural)]
pub enum ParseError {
    NeedMore,
    BadType(u8),
    BadLength,
    FrameSize,
    Protocol,
    Padding,
    ZeroIncrement,
}

pub const HEADER_LEN: usize = 9;

/// A frame header as numbers.
pub struct HeadView {
    pub length: u32,
    pub kind: Type,
    pub flags: u8,
    pub stream: u32,
}

/// The header at the start of `s`. Its reserved bit is ignored.
pub open spec fn head_at(s: Seq<u8>) -> Result<HeadView, ParseError> {
    if s.len() < HEADER_LEN {
        Err(ParseError::NeedMore)
    } else if s[3] > 9 {
        Err(ParseError::BadType(s[3]))
    } else {
        Ok(
            HeadView {
                length: bytes::be24(s, 0),
                kind: type_of(s[3]),
                flags: s[4],
                stream: bytes::be32(s, 5) % 0x8000_0000,
            },
        )
    }
}

/// The frame type with a number on the wire.
pub open spec fn type_of(n: u8) -> Type {
    if n == 0 {
        Type::Data
    } else if n == 1 {
        Type::Headers
    } else if n == 2 {
        Type::Priority
    } else if n == 3 {
        Type::RstStream
    } else if n == 4 {
        Type::Settings
    } else if n == 5 {
        Type::PushPromise
    } else if n == 6 {
        Type::Ping
    } else if n == 7 {
        Type::GoAway
    } else if n == 8 {
        Type::WindowUpdate
    } else {
        Type::Continuation
    }
}

/// The nine bytes of a header.
pub open spec fn head_wire(h: HeadView) -> Seq<u8> {
    bytes::wire24(h.length) + seq![type_number(h.kind), h.flags] + bytes::wire32(h.stream)
}

/// What was encoded as a header takes nine bytes and is parsed as that header, whatever follows.
pub proof fn law_heads_round_trip(h: HeadView, rest: Seq<u8>)
    requires
        h.length <= FrameLength::MAX,
        h.stream <= StreamId::MAX,
    ensures
        head_wire(h).len() == HEADER_LEN,
        head_at(head_wire(h) + rest) == Ok::<HeadView, ParseError>(h),
{
    let s = head_wire(h) + rest;
    assert(s.subrange(0, 3) =~= bytes::wire24(h.length));
    assert(s.subrange(5, 9) =~= bytes::wire32(h.stream));
    bytes::lemma_wire24(h.length, s, 0);
    bytes::lemma_wire32(h.stream, s, 5);
}

#[derive(Copy, Clone, Debug, PartialEq, Eq, Structural)]
pub struct FrameHeader {
    pub length: FrameLength,
    pub kind: Type,
    pub flags: Flags,
    pub stream_id: StreamId,
}

impl FrameHeader {
    pub open spec fn view(&self) -> HeadView {
        HeadView {
            length: self.length.value(),
            kind: self.kind,
            flags: self.flags.0,
            stream: self.stream_id.value(),
        }
    }

    pub fn parse(buf: &[u8]) -> (r: Result<Self, ParseError>)
        ensures
            match r {
                Ok(header) => head_at(buf@) == Ok::<HeadView, ParseError>(header@),
                Err(error) => head_at(buf@) == Err::<HeadView, ParseError>(error),
            },
    {
        if buf.len() < HEADER_LEN {
            return Err(ParseError::NeedMore);
        }
        let length = FrameLength(read_u24(buf, 0));
        let kind = match Type::from_u8(buf[3]) {
            Ok(kind) => kind,
            Err(other) => return Err(ParseError::BadType(other)),
        };
        let flags = Flags(buf[4]);
        let stream_id = StreamId::from_wire(read_u32(buf, 5));
        Ok(FrameHeader { length, kind, flags, stream_id })
    }

    pub fn encode(&self, out: &mut Vec<u8>)
        ensures
            final(out)@ == old(out)@ + head_wire(self@),
    {
        push_u24(out, self.length.as_u32());
        out.push(self.kind.as_u8());
        out.push(self.flags.0);
        push_u32(out, self.stream_id.as_u32());
    }
}

/// Where a stream stands in the tree of priorities.
#[derive(Copy, Clone, Debug, PartialEq, Eq, Structural)]
pub struct PriorityFields {
    pub exclusive: bool,
    pub dependency: StreamId,
    pub weight: u8,
}

/// Priority fields as numbers.
pub struct PriorityView {
    pub exclusive: bool,
    pub dependency: u32,
    pub weight: u8,
}

/// The priority fields at the start of `s`.
pub open spec fn priority_at(s: Seq<u8>) -> PriorityView {
    PriorityView {
        exclusive: bytes::be32(s, 0) >= 0x8000_0000,
        dependency: bytes::be32(s, 0) % 0x8000_0000,
        weight: s[4],
    }
}

/// The five bytes of priority fields.
pub open spec fn priority_wire(p: PriorityView) -> Seq<u8> {
    bytes::wire32(
        (p.dependency + (if p.exclusive {
            0x8000_0000int
        } else {
            0
        })) as u32,
    ) + seq![p.weight]
}

proof fn lemma_priority_wire(p: PriorityView, rest: Seq<u8>)
    requires
        p.dependency <= StreamId::MAX,
    ensures
        priority_wire(p).len() == 5,
        priority_at(priority_wire(p) + rest) == p,
{
    let raw = (p.dependency + (if p.exclusive {
        0x8000_0000int
    } else {
        0
    })) as u32;
    let s = priority_wire(p) + rest;
    assert(s.subrange(0, 4) =~= bytes::wire32(raw));
    bytes::lemma_wire32(raw, s, 0);
}

impl PriorityFields {
    pub open spec fn view(&self) -> PriorityView {
        PriorityView {
            exclusive: self.exclusive,
            dependency: self.dependency.value(),
            weight: self.weight,
        }
    }

    pub fn parse(buf: &[u8]) -> (r: Result<Self, ParseError>)
        ensures
            match r {
                Ok(fields) => buf@.len() >= 5 && fields@ == priority_at(buf@),
                Err(error) => buf@.len() < 5 && error is FrameSize,
            },
    {
        if buf.len() < 5 {
            return Err(ParseError::FrameSize);
        }
        let raw: u32 = read_u32(buf, 0);
        Ok(
            PriorityFields {
                exclusive: raw >= 0x8000_0000,
                dependency: StreamId::from_wire(raw),
                weight: buf[4],
            },
        )
    }

    pub fn encode(&self, out: &mut Vec<u8>)
        ensures
            final(out)@ == old(out)@ + priority_wire(self@),
    {
        let mut raw: u32 = self.dependency.as_u32();
        if self.exclusive {
            raw = raw + 0x8000_0000;
        }
        push_u32(out, raw);
        out.push(self.weight);
    }
}

/// A frame as numbers and byte strings.
#[verifier::ext_equal]
pub enum FrameView {
    Data { stream: u32, end_stream: bool, payload: Seq<u8> },
    Headers {
        stream: u32,
        end_stream: bool,
        end_headers: bool,
        priority: Option<PriorityView>,
        fragment: Seq<u8>,
    },
    Priority { stream: u32, fields: PriorityView },
    RstStream { stream: u32, error: ErrorCode },
    Settings { ack: bool, params: Seq<u8> },
    PushPromise { stream: u32, promised: u32, end_headers: bool, fragment: Seq<u8> },
    Ping { ack: bool, opaque: Seq<u8> },
    GoAway { last: u32, error: ErrorCode, debug: Seq<u8> },
    WindowUpdate { stream: u32, increment: u32 },
    Continuation { stream: u32, end_headers: bool, fragment: Seq<u8> },
}

/// Whether `f` can be put into one frame.
pub open spec fn frame_fits(f: FrameView) -> bool {
    match f {
        FrameView::Data { stream, end_stream, payload } => 1 <= stream <= StreamId::MAX
            && payload.len() <= FrameLength::MAX,
        FrameView::Headers { stream, end_stream, end_headers, priority, fragment } => 1 <= stream
            <= StreamId::MAX && priority_len(priority) + fragment.len() <= FrameLength::MAX && (
        priority matches Some(p) ==> p.dependency <= StreamId::MAX),
        FrameView::Priority { stream, fields } => 1 <= stream <= StreamId::MAX && fields.dependency
            <= StreamId::MAX && stream != fields.dependency,
        FrameView::RstStream { stream, error } => 1 <= stream <= StreamId::MAX,
        FrameView::Settings { ack, params } => params.len() % 6 == 0 && params.len()
            <= FrameLength::MAX && (ack ==> params.len() == 0),
        FrameView::PushPromise { stream, promised, end_headers, fragment } => 1 <= stream
            <= StreamId::MAX && 1 <= promised <= StreamId::MAX && 4 + fragment.len()
            <= FrameLength::MAX,
        FrameView::Ping { ack, opaque } => opaque.len() == 8,
        FrameView::GoAway { last, error, debug } => last <= StreamId::MAX && 8 + debug.len()
            <= FrameLength::MAX,
        FrameView::WindowUpdate { stream, increment } => stream <= StreamId::MAX && 1 <= increment
            <= WindowIncrement::MAX,
        FrameView::Continuation { stream, end_headers, fragment } => 1 <= stream <= StreamId::MAX
            && fragment.len() <= FrameLength::MAX,
    }
}

/// The bytes that priority fields take in a payload.
pub open spec fn priority_len(priority: Option<PriorityView>) -> int {
    if priority is Some {
        5
    } else {
        0
    }
}

/// The type, flags and stream of the frame for `f`.
pub open spec fn frame_mark(f: FrameView) -> (Type, u8, u32) {
    match f {
        FrameView::Data { stream, end_stream, payload } => (
            Type::Data,
            flag_bits(end_stream, false, false),
            stream,
        ),
        FrameView::Headers { stream, end_stream, end_headers, priority, fragment } => (
            Type::Headers,
            flag_bits(end_stream, end_headers, priority is Some),
            stream,
        ),
        FrameView::Priority { stream, fields } => (Type::Priority, 0, stream),
        FrameView::RstStream { stream, error } => (Type::RstStream, 0, stream),
        FrameView::Settings { ack, params } => (Type::Settings, flag_bits(ack, false, false), 0),
        FrameView::PushPromise { stream, promised, end_headers, fragment } => (
            Type::PushPromise,
            flag_bits(false, end_headers, false),
            stream,
        ),
        FrameView::Ping { ack, opaque } => (Type::Ping, flag_bits(ack, false, false), 0),
        FrameView::GoAway { last, error, debug } => (Type::GoAway, 0, 0),
        FrameView::WindowUpdate { stream, increment } => (Type::WindowUpdate, 0, stream),
        FrameView::Continuation { stream, end_headers, fragment } => (
            Type::Continuation,
            flag_bits(false, end_headers, false),
            stream,
        ),
    }
}

/// The payload of the frame for `f`; it is not padded.
pub open spec fn frame_body(f: FrameView) -> Seq<u8> {
    match f {
        FrameView::Data { stream, end_stream, payload } => payload,
        FrameView::Headers { stream, end_stream, end_headers, priority, fragment } => {
            match priority {
                Some(p) => priority_wire(p) + fragment,
                None => fragment,
            }
        },
        FrameView::Priority { stream, fields } => priority_wire(fields),
        FrameView::RstStream { stream, error } => bytes::wire32(error_number(error)),
        FrameView::Settings { ack, params } => params,
        FrameView::PushPromise { stream, promised, end_headers, fragment } => bytes::wire32(promised)
            + fragment,
        FrameView::Ping { ack, opaque } => opaque,
        FrameView::GoAway { last, error, debug } => bytes::wire32(last) + bytes::wire32(error_number(error))
            + debug,
        FrameView::WindowUpdate { stream, increment } => bytes::wire32(increment),
        FrameView::Continuation { stream, end_headers, fragment } => fragment,
    }
}

/// The header of the frame for `f`.
pub open spec fn frame_head(f: FrameView) -> HeadView {
    HeadView {
        length: frame_body(f).len() as u32,
        kind: frame_mark(f).0,
        flags: frame_mark(f).1,
        stream: frame_mark(f).2,
    }
}

/// The bytes of the frame for `f`.
pub open spec fn frame_wire(f: FrameView) -> Seq<u8> {
    head_wire(frame_head(f)) + frame_body(f)
}

/// DATA belongs to a stream and may be padded.
pub open spec fn data_of(h: HeadView, payload: Seq<u8>) -> Result<FrameView, ParseError> {
    if h.stream == 0 {
        Err(ParseError::Protocol)
    } else {
        match unpadded(h.flags, payload) {
            None => Err(ParseError::Padding),
            Some(body) => if body.len() > FrameLength::MAX {
                Err(ParseError::FrameSize)
            } else {
                Ok(
                    FrameView::Data {
                        stream: h.stream,
                        end_stream: flag(h.flags, Flags::END_STREAM),
                        payload: body,
                    },
                )
            },
        }
    }
}

/// HEADERS belong to a stream and may be padded and carry priority fields.
pub open spec fn headers_of(h: HeadView, payload: Seq<u8>) -> Result<FrameView, ParseError> {
    if h.stream == 0 {
        Err(ParseError::Protocol)
    } else {
        match unpadded(h.flags, payload) {
            None => Err(ParseError::Padding),
            Some(body) => {
                let has_priority = flag(h.flags, Flags::PRIORITY);
                if (has_priority && body.len() < 5) || body.len() > FrameLength::MAX {
                    Err(ParseError::FrameSize)
                } else {
                    Ok(
                        FrameView::Headers {
                            stream: h.stream,
                            end_stream: flag(h.flags, Flags::END_STREAM),
                            end_headers: flag(h.flags, Flags::END_HEADERS),
                            priority: if has_priority {
                                Some(priority_at(body))
                            } else {
                                None
                            },
                            fragment: if has_priority {
                                body.subrange(5, body.len() as int)
                            } else {
                                body
                            },
                        },
                    )
                }
            },
        }
    }
}

/// A stream cannot depend on itself.
pub open spec fn priority_of(h: HeadView, payload: Seq<u8>) -> Result<FrameView, ParseError> {
    if payload.len() != 5 {
        Err(ParseError::FrameSize)
    } else if h.stream == 0 || priority_at(payload).dependency == h.stream {
        Err(ParseError::Protocol)
    } else {
        Ok(FrameView::Priority { stream: h.stream, fields: priority_at(payload) })
    }
}

pub open spec fn rst_stream_of(h: HeadView, payload: Seq<u8>) -> Result<FrameView, ParseError> {
    if payload.len() != 4 {
        Err(ParseError::FrameSize)
    } else if h.stream == 0 {
        Err(ParseError::Protocol)
    } else {
        Ok(FrameView::RstStream { stream: h.stream, error: error_of(bytes::be32(payload, 0)) })
    }
}

/// SETTINGS are six bytes each and belong to the connection; an acknowledgement is empty.
pub open spec fn settings_of(h: HeadView, payload: Seq<u8>) -> Result<FrameView, ParseError> {
    let ack = flag(h.flags, Flags::ACK);
    if (ack && payload.len() != 0) || payload.len() % 6 != 0 || payload.len() > FrameLength::MAX {
        Err(ParseError::FrameSize)
    } else if h.stream != 0 {
        Err(ParseError::Protocol)
    } else {
        Ok(FrameView::Settings { ack, params: payload })
    }
}

pub open spec fn push_promise_of(h: HeadView, payload: Seq<u8>) -> Result<FrameView, ParseError> {
    if h.stream == 0 {
        Err(ParseError::Protocol)
    } else {
        match unpadded(h.flags, payload) {
            None => Err(ParseError::Padding),
            Some(body) => if body.len() < 4 {
                Err(ParseError::FrameSize)
            } else if bytes::be32(body, 0) % 0x8000_0000 == 0 || body.len() > FrameLength::MAX {
                Err(ParseError::Protocol)
            } else {
                Ok(
                    FrameView::PushPromise {
                        stream: h.stream,
                        promised: bytes::be32(body, 0) % 0x8000_0000,
                        end_headers: flag(h.flags, Flags::END_HEADERS),
                        fragment: body.subrange(4, body.len() as int),
                    },
                )
            },
        }
    }
}

pub open spec fn ping_of(h: HeadView, payload: Seq<u8>) -> Result<FrameView, ParseError> {
    if payload.len() != 8 {
        Err(ParseError::FrameSize)
    } else if h.stream != 0 {
        Err(ParseError::Protocol)
    } else {
        Ok(FrameView::Ping { ack: flag(h.flags, Flags::ACK), opaque: payload })
    }
}

pub open spec fn go_away_of(h: HeadView, payload: Seq<u8>) -> Result<FrameView, ParseError> {
    if h.stream != 0 {
        Err(ParseError::Protocol)
    } else if payload.len() < 8 || payload.len() > FrameLength::MAX {
        Err(ParseError::FrameSize)
    } else {
        Ok(
            FrameView::GoAway {
                last: bytes::be32(payload, 0) % 0x8000_0000,
                error: error_of(bytes::be32(payload, 4)),
                debug: payload.subrange(8, payload.len() as int),
            },
        )
    }
}

pub open spec fn window_update_of(h: HeadView, payload: Seq<u8>) -> Result<FrameView, ParseError> {
    if payload.len() != 4 {
        Err(ParseError::FrameSize)
    } else if bytes::be32(payload, 0) % 0x8000_0000 == 0 {
        Err(ParseError::ZeroIncrement)
    } else {
        Ok(
            FrameView::WindowUpdate {
                stream: h.stream,
                increment: bytes::be32(payload, 0) % 0x8000_0000,
            },
        )
    }
}

pub open spec fn continuation_of(h: HeadView, payload: Seq<u8>) -> Result<FrameView, ParseError> {
    if h.stream == 0 {
        Err(ParseError::Protocol)
    } else if payload.len() > FrameLength::MAX {
        Err(ParseError::FrameSize)
    } else {
        Ok(
            FrameView::Continuation {
                stream: h.stream,
                end_headers: flag(h.flags, Flags::END_HEADERS),
                fragment: payload,
            },
        )
    }
}

/// The frame with header `h` and the given payload.
pub open spec fn frame_of(h: HeadView, payload: Seq<u8>) -> Result<FrameView, ParseError> {
    if payload.len() != h.length {
        Err(ParseError::BadLength)
    } else {
        match h.kind {
            Type::Data => data_of(h, payload),
            Type::Headers => headers_of(h, payload),
            Type::Priority => priority_of(h, payload),
            Type::RstStream => rst_stream_of(h, payload),
            Type::Settings => settings_of(h, payload),
            Type::PushPromise => push_promise_of(h, payload),
            Type::Ping => ping_of(h, payload),
            Type::GoAway => go_away_of(h, payload),
            Type::WindowUpdate => window_update_of(h, payload),
            Type::Continuation => continuation_of(h, payload),
        }
    }
}

/// The frame at the start of `s`, and how many bytes it takes.
pub open spec fn frame_at(s: Seq<u8>) -> Result<(FrameView, nat), ParseError> {
    match head_at(s) {
        Err(error) => Err(error),
        Ok(h) => {
            let total = HEADER_LEN + h.length;
            if s.len() < total {
                Err(ParseError::NeedMore)
            } else {
                match frame_of(h, s.subrange(HEADER_LEN as int, total)) {
                    Err(error) => Err(error),
                    Ok(f) => Ok((f, total as nat)),
                }
            }
        },
    }
}

/// A piece of a body.
#[derive(Copy, Clone, Debug, PartialEq, Eq)]
pub struct Data<'a> {
    stream_id: StreamId,
    end_stream: bool,
    payload: &'a [u8],
}

impl<'a> Data<'a> {
    pub closed spec fn view(&self) -> FrameView {
        FrameView::Data {
            stream: self.stream_id.value(),
            end_stream: self.end_stream,
            payload: self.payload@,
        }
    }

    #[verifier::type_invariant]
    spec fn inv(self) -> bool {
        frame_fits(self@)
    }

    pub fn new(stream_id: StreamId, end_stream: bool, payload: &'a [u8]) -> (r: Option<Self>)
        ensures
            r is Some <==> stream_id.value() != 0 && payload@.len() <= FrameLength::MAX,
            r matches Some(frame) ==> frame@ == (FrameView::Data {
                stream: stream_id.value(),
                end_stream,
                payload: payload@,
            }),
    {
        let raw: u32 = stream_id.as_u32();
        if raw == 0 || payload.len() > FrameLength::MAX as usize {
            return None;
        }
        Some(Data { stream_id, end_stream, payload })
    }

    pub fn stream_id(&self) -> (r: StreamId)
        ensures
            self@ is Data,
            self@->Data_stream == r.value(),
    {
        self.stream_id
    }

    pub fn end_stream(&self) -> (r: bool)
        ensures
            self@->Data_end_stream == r,
    {
        self.end_stream
    }

    pub fn payload(&self) -> (r: &'a [u8])
        ensures
            self@->Data_payload == r@,
    {
        self.payload
    }

    pub fn parse(header: FrameHeader, payload: &'a [u8]) -> (r: Result<Self, ParseError>)
        ensures
            match r {
                Ok(frame) => data_of(header@, payload@) == Ok::<FrameView, ParseError>(frame@),
                Err(error) => data_of(header@, payload@) == Err::<FrameView, ParseError>(error),
            },
    {
        if header.stream_id.is_zero() {
            return Err(ParseError::Protocol);
        }
        let body = match header.flags.strip(payload) {
            Ok(body) => body,
            Err(error) => return Err(error),
        };
        match Data::new(header.stream_id, header.flags.has(Flags::END_STREAM), body) {
            Some(frame) => Ok(frame),
            None => Err(ParseError::FrameSize),
        }
    }

    pub fn encode(&self, out: &mut Vec<u8>)
        ensures
            final(out)@ == old(out)@ + frame_wire(self@),
    {
        proof {
            use_type_invariant(self);
        }
        let header = FrameHeader {
            length: FrameLength(self.payload.len() as u32),
            kind: Type::Data,
            flags: make_flags(self.end_stream, false, false),
            stream_id: self.stream_id,
        };
        header.encode(out);
        push_bytes(out, self.payload);
    }

    /// Writes the header of a DATA frame whose payload is sent separately.
    pub fn encode_header(
        stream_id: StreamId,
        end_stream: bool,
        length: FrameLength,
        out: &mut Vec<u8>,
    )
        ensures
            final(out)@ == old(out)@ + head_wire(
                HeadView {
                    length: length.value(),
                    kind: Type::Data,
                    flags: flag_bits(end_stream, false, false),
                    stream: stream_id.value(),
                },
            ),
    {
        let header = FrameHeader {
            length,
            kind: Type::Data,
            flags: make_flags(end_stream, false, false),
            stream_id,
        };
        header.encode(out);
    }
}

/// The start of a block of header fields.
#[derive(Copy, Clone, Debug, PartialEq, Eq)]
pub struct Headers<'a> {
    stream_id: StreamId,
    end_stream: bool,
    end_headers: bool,
    priority: Option<PriorityFields>,
    block_fragment: &'a [u8],
}

impl<'a> Headers<'a> {
    pub closed spec fn view(&self) -> FrameView {
        FrameView::Headers {
            stream: self.stream_id.value(),
            end_stream: self.end_stream,
            end_headers: self.end_headers,
            priority: priority_view(self.priority),
            fragment: self.block_fragment@,
        }
    }

    #[verifier::type_invariant]
    spec fn inv(self) -> bool {
        frame_fits(self@)
    }

    pub fn new(
        stream_id: StreamId,
        end_stream: bool,
        end_headers: bool,
        priority: Option<PriorityFields>,
        block_fragment: &'a [u8],
    ) -> (r: Option<Self>)
        ensures
            r is Some <==> stream_id.value() != 0 && priority_len(priority_view(priority))
                + block_fragment@.len() <= FrameLength::MAX,
            r matches Some(frame) ==> frame@ == (FrameView::Headers {
                stream: stream_id.value(),
                end_stream,
                end_headers,
                priority: priority_view(priority),
                fragment: block_fragment@,
            }),
    {
        let raw: u32 = stream_id.as_u32();
        if raw == 0 {
            return None;
        }
        let priority_len: usize = match priority {
            Some(fields) => {
                let dependency: u32 = fields.dependency.as_u32();
                5
            },
            None => 0,
        };
        if block_fragment.len() > FrameLength::MAX as usize - priority_len {
            return None;
        }
        Some(Headers { stream_id, end_stream, end_headers, priority, block_fragment })
    }

    pub fn stream_id(&self) -> (r: StreamId)
        ensures
            self@ is Headers,
            self@->Headers_stream == r.value(),
    {
        self.stream_id
    }

    pub fn end_stream(&self) -> (r: bool)
        ensures
            self@->Headers_end_stream == r,
    {
        self.end_stream
    }

    pub fn end_headers(&self) -> (r: bool)
        ensures
            self@->Headers_end_headers == r,
    {
        self.end_headers
    }

    pub fn priority(&self) -> (r: Option<PriorityFields>)
        ensures
            self@->Headers_priority == priority_view(r),
    {
        self.priority
    }

    pub fn block_fragment(&self) -> (r: &'a [u8])
        ensures
            self@->Headers_fragment == r@,
    {
        self.block_fragment
    }

    pub fn parse(header: FrameHeader, payload: &'a [u8]) -> (r: Result<Self, ParseError>)
        ensures
            match r {
                Ok(frame) => headers_of(header@, payload@) == Ok::<FrameView, ParseError>(frame@),
                Err(error) => headers_of(header@, payload@) == Err::<FrameView, ParseError>(error),
            },
    {
        if header.stream_id.is_zero() {
            return Err(ParseError::Protocol);
        }
        let body = match header.flags.strip(payload) {
            Ok(body) => body,
            Err(error) => return Err(error),
        };
        let mut priority: Option<PriorityFields> = None;
        let mut rest: &'a [u8] = body;
        if header.flags.has(Flags::PRIORITY) {
            if body.len() < 5 {
                return Err(ParseError::FrameSize);
            }
            match PriorityFields::parse(&body[0..5]) {
                Ok(fields) => {
                    assert(priority_at(body@.subrange(0, 5)) == priority_at(body@));
                    priority = Some(fields);
                },
                Err(error) => return Err(error),
            }
            rest = &body[5..body.len()];
        }
        match Headers::new(
            header.stream_id,
            header.flags.has(Flags::END_STREAM),
            header.flags.has(Flags::END_HEADERS),
            priority,
            rest,
        ) {
            Some(frame) => Ok(frame),
            None => Err(ParseError::FrameSize),
        }
    }

    pub fn encode(&self, out: &mut Vec<u8>)
        ensures
            final(out)@ == old(out)@ + frame_wire(self@),
    {
        proof {
            use_type_invariant(self);
        }
        let priority_len: u32 = if self.priority.is_some() {
            5
        } else {
            0
        };
        let header = FrameHeader {
            length: FrameLength(priority_len + self.block_fragment.len() as u32),
            kind: Type::Headers,
            flags: make_flags(self.end_stream, self.end_headers, self.priority.is_some()),
            stream_id: self.stream_id,
        };
        header.encode(out);
        if let Some(fields) = self.priority {
            fields.encode(out);
        }
        push_bytes(out, self.block_fragment);
        assert(out@ =~= old(out)@ + frame_wire(self@));
    }
}

/// Optional priority fields as numbers.
pub open spec fn priority_view(priority: Option<PriorityFields>) -> Option<PriorityView> {
    match priority {
        Some(fields) => Some(fields@),
        None => None,
    }
}

/// A change of priority.
#[derive(Copy, Clone, Debug, PartialEq, Eq)]
pub struct Priority {
    stream_id: StreamId,
    fields: PriorityFields,
}

impl Priority {
    pub closed spec fn view(&self) -> FrameView {
        FrameView::Priority { stream: self.stream_id.value(), fields: self.fields@ }
    }

    #[verifier::type_invariant]
    spec fn inv(self) -> bool {
        frame_fits(self@)
    }

    pub fn new(stream_id: StreamId, fields: PriorityFields) -> (r: Option<Self>)
        ensures
            r is Some <==> stream_id.value() != 0 && stream_id.value() != fields.dependency.value(),
            r matches Some(frame) ==> frame@ == (FrameView::Priority {
                stream: stream_id.value(),
                fields: fields@,
            }),
    {
        let raw: u32 = stream_id.as_u32();
        let dependency: u32 = fields.dependency.as_u32();
        if raw == 0 || raw == dependency {
            None
        } else {
            Some(Priority { stream_id, fields })
        }
    }

    pub fn stream_id(&self) -> (r: StreamId)
        ensures
            self@ is Priority,
            self@->Priority_stream == r.value(),
    {
        self.stream_id
    }

    pub fn fields(&self) -> (r: PriorityFields)
        ensures
            self@->Priority_fields == r@,
    {
        self.fields
    }

    pub fn parse(header: FrameHeader, payload: &[u8]) -> (r: Result<Self, ParseError>)
        ensures
            match r {
                Ok(frame) => priority_of(header@, payload@) == Ok::<FrameView, ParseError>(frame@),
                Err(error) => priority_of(header@, payload@) == Err::<FrameView, ParseError>(error),
            },
    {
        if payload.len() != 5 {
            return Err(ParseError::FrameSize);
        }
        if header.stream_id.is_zero() {
            return Err(ParseError::Protocol);
        }
        let fields = match PriorityFields::parse(payload) {
            Ok(fields) => fields,
            Err(error) => return Err(error),
        };
        match Priority::new(header.stream_id, fields) {
            Some(frame) => Ok(frame),
            None => Err(ParseError::Protocol),
        }
    }

    pub fn encode(&self, out: &mut Vec<u8>)
        ensures
            final(out)@ == old(out)@ + frame_wire(self@),
    {
        proof {
            use_type_invariant(self);
        }
        let header = FrameHeader {
            length: FrameLength(5),
            kind: Type::Priority,
            flags: Flags(0),
            stream_id: self.stream_id,
        };
        header.encode(out);
        self.fields.encode(out);
    }
}

/// The end of a stream by an error.
#[derive(Copy, Clone, Debug, PartialEq, Eq)]
pub struct RstStream {
    stream_id: StreamId,
    error: ErrorCode,
}

impl RstStream {
    pub closed spec fn view(&self) -> FrameView {
        FrameView::RstStream { stream: self.stream_id.value(), error: self.error }
    }

    #[verifier::type_invariant]
    spec fn inv(self) -> bool {
        frame_fits(self@)
    }

    pub fn new(stream_id: StreamId, error: ErrorCode) -> (r: Option<Self>)
        ensures
            r is Some <==> stream_id.value() != 0,
            r matches Some(frame) ==> frame@ == (FrameView::RstStream {
                stream: stream_id.value(),
                error,
            }),
    {
        let raw: u32 = stream_id.as_u32();
        if raw == 0 {
            None
        } else {
            Some(RstStream { stream_id, error })
        }
    }

    pub fn stream_id(&self) -> (r: StreamId)
        ensures
            self@ is RstStream,
            self@->RstStream_stream == r.value(),
    {
        self.stream_id
    }

    pub fn error(&self) -> (r: ErrorCode)
        ensures
            self@->RstStream_error == r,
    {
        self.error
    }

    pub fn parse(header: FrameHeader, payload: &[u8]) -> (r: Result<Self, ParseError>)
        ensures
            match r {
                Ok(frame) => rst_stream_of(header@, payload@) == Ok::<FrameView, ParseError>(frame@),
                Err(error) => rst_stream_of(header@, payload@) == Err::<FrameView, ParseError>(error),
            },
    {
        if payload.len() != 4 {
            return Err(ParseError::FrameSize);
        }
        if header.stream_id.is_zero() {
            return Err(ParseError::Protocol);
        }
        match RstStream::new(header.stream_id, ErrorCode::from_u32(read_u32(payload, 0))) {
            Some(frame) => Ok(frame),
            None => Err(ParseError::Protocol),
        }
    }

    pub fn encode(&self, out: &mut Vec<u8>)
        ensures
            final(out)@ == old(out)@ + frame_wire(self@),
    {
        proof {
            use_type_invariant(self);
        }
        let header = FrameHeader {
            length: FrameLength(4),
            kind: Type::RstStream,
            flags: Flags(0),
            stream_id: self.stream_id,
        };
        header.encode(out);
        push_u32(out, self.error.as_u32());
    }
}

/// Parameters of the connection, or the acknowledgement of them.
#[derive(Copy, Clone, Debug, PartialEq, Eq)]
pub struct Settings<'a> {
    ack: bool,
    params: &'a [u8],
}

impl<'a> Settings<'a> {
    pub closed spec fn view(&self) -> FrameView {
        FrameView::Settings { ack: self.ack, params: self.params@ }
    }

    #[verifier::type_invariant]
    spec fn inv(self) -> bool {
        frame_fits(self@)
    }

    pub fn new(ack: bool, params: &'a [u8]) -> (r: Option<Self>)
        ensures
            r is Some <==> (ack ==> params@.len() == 0) && params@.len() % 6 == 0 && params@.len()
                <= FrameLength::MAX,
            r matches Some(frame) ==> frame@ == (FrameView::Settings { ack, params: params@ }),
    {
        if (ack && params.len() != 0) || params.len() % 6 != 0 {
            return None;
        }
        if params.len() > FrameLength::MAX as usize {
            return None;
        }
        Some(Settings { ack, params })
    }

    pub fn ack(&self) -> (r: bool)
        ensures
            self@ is Settings,
            self@->Settings_ack == r,
    {
        self.ack
    }

    pub fn params(&self) -> (r: &'a [u8])
        ensures
            self@->Settings_params == r@,
            r@.len() % 6 == 0,
    {
        proof {
            use_type_invariant(self);
        }
        self.params
    }

    pub fn parse(header: FrameHeader, payload: &'a [u8]) -> (r: Result<Self, ParseError>)
        ensures
            match r {
                Ok(frame) => settings_of(header@, payload@) == Ok::<FrameView, ParseError>(frame@),
                Err(error) => settings_of(header@, payload@) == Err::<FrameView, ParseError>(error),
            },
    {
        let settings = match Settings::new(header.flags.has(Flags::ACK), payload) {
            Some(settings) => settings,
            None => return Err(ParseError::FrameSize),
        };
        if header.stream_id.is_zero() {
            Ok(settings)
        } else {
            Err(ParseError::Protocol)
        }
    }

    pub fn encode(&self, out: &mut Vec<u8>)
        ensures
            final(out)@ == old(out)@ + frame_wire(self@),
    {
        proof {
            use_type_invariant(self);
        }
        let header = FrameHeader {
            length: FrameLength(self.params.len() as u32),
            kind: Type::Settings,
            flags: make_flags(self.ack, false, false),
            stream_id: StreamId::connection(),
        };
        header.encode(out);
        push_bytes(out, self.params);
    }

    /// The parameters in order.
    pub fn iter(&self) -> (r: SettingsIter<'a>)
        ensures
            r.rest() == self@->Settings_params,
    {
        SettingsIter { rest: self.params }
    }
}

/// Walks over the parameters of a SETTINGS frame.
pub struct SettingsIter<'a> {
    rest: &'a [u8],
}

/// The parameter in the first six bytes of `s`.
pub open spec fn setting_at(s: Seq<u8>) -> (Option<SettingId>, u32) {
    (setting_of(bytes::be16(s, 0)), bytes::be32(s, 2))
}

/// The parameters in `s`, six bytes each.
pub open spec fn settings_in(s: Seq<u8>) -> Seq<(Option<SettingId>, u32)>
    decreases s.len(),
{
    if s.len() < 6 {
        Seq::empty()
    } else {
        seq![setting_at(s)] + settings_in(s.subrange(6, s.len() as int))
    }
}

impl<'a> SettingsIter<'a> {
    /// The bytes that are still to come.
    pub closed spec fn rest(&self) -> Seq<u8> {
        self.rest@
    }

    /// The next parameter; its identifier is `None` where it is unknown.
    pub fn next(&mut self) -> (r: Option<(Option<SettingId>, u32)>)
        ensures
            r == (if old(self).rest().len() < 6 {
                None
            } else {
                Some(setting_at(old(self).rest()))
            }),
            final(self).rest() == (if old(self).rest().len() < 6 {
                old(self).rest()
            } else {
                old(self).rest().subrange(6, old(self).rest().len() as int)
            }),
    {
        if self.rest.len() < 6 {
            return None;
        }
        let id = SettingId::from_u16(read_u16(self.rest, 0));
        let value: u32 = read_u32(self.rest, 2);
        self.rest = &self.rest[6..self.rest.len()];
        Some((id, value))
    }
}

/// The announcement of a stream that the sender will open.
#[derive(Copy, Clone, Debug, PartialEq, Eq)]
pub struct PushPromise<'a> {
    stream_id: StreamId,
    promised_stream_id: StreamId,
    end_headers: bool,
    block_fragment: &'a [u8],
}

impl<'a> PushPromise<'a> {
    pub closed spec fn view(&self) -> FrameView {
        FrameView::PushPromise {
            stream: self.stream_id.value(),
            promised: self.promised_stream_id.value(),
            end_headers: self.end_headers,
            fragment: self.block_fragment@,
        }
    }

    #[verifier::type_invariant]
    spec fn inv(self) -> bool {
        frame_fits(self@)
    }

    pub fn new(
        stream_id: StreamId,
        promised_stream_id: StreamId,
        end_headers: bool,
        block_fragment: &'a [u8],
    ) -> (r: Option<Self>)
        ensures
            r is Some <==> stream_id.value() != 0 && promised_stream_id.value() != 0 && 4
                + block_fragment@.len() <= FrameLength::MAX,
            r matches Some(frame) ==> frame@ == (FrameView::PushPromise {
                stream: stream_id.value(),
                promised: promised_stream_id.value(),
                end_headers,
                fragment: block_fragment@,
            }),
    {
        let raw: u32 = stream_id.as_u32();
        let promised: u32 = promised_stream_id.as_u32();
        if raw == 0 || promised == 0 {
            return None;
        }
        if block_fragment.len() > FrameLength::MAX as usize - 4 {
            return None;
        }
        Some(PushPromise { stream_id, promised_stream_id, end_headers, block_fragment })
    }

    pub fn stream_id(&self) -> (r: StreamId)
        ensures
            self@ is PushPromise,
            self@->PushPromise_stream == r.value(),
    {
        self.stream_id
    }

    pub fn promised_stream_id(&self) -> (r: StreamId)
        ensures
            self@->PushPromise_promised == r.value(),
    {
        self.promised_stream_id
    }

    pub fn end_headers(&self) -> (r: bool)
        ensures
            self@->PushPromise_end_headers == r,
    {
        self.end_headers
    }

    pub fn block_fragment(&self) -> (r: &'a [u8])
        ensures
            self@->PushPromise_fragment == r@,
    {
        self.block_fragment
    }

    pub fn parse(header: FrameHeader, payload: &'a [u8]) -> (r: Result<Self, ParseError>)
        ensures
            match r {
                Ok(frame) => push_promise_of(header@, payload@) == Ok::<FrameView, ParseError>(frame@),
                Err(error) => push_promise_of(header@, payload@) == Err::<FrameView, ParseError>(error),
            },
    {
        if header.stream_id.is_zero() {
            return Err(ParseError::Protocol);
        }
        let body = match header.flags.strip(payload) {
            Ok(body) => body,
            Err(error) => return Err(error),
        };
        if body.len() < 4 {
            return Err(ParseError::FrameSize);
        }
        match PushPromise::new(
            header.stream_id,
            StreamId::from_wire(read_u32(body, 0)),
            header.flags.has(Flags::END_HEADERS),
            &body[4..body.len()],
        ) {
            Some(frame) => Ok(frame),
            None => Err(ParseError::Protocol),
        }
    }

    pub fn encode(&self, out: &mut Vec<u8>)
        ensures
            final(out)@ == old(out)@ + frame_wire(self@),
    {
        proof {
            use_type_invariant(self);
        }
        let header = FrameHeader {
            length: FrameLength(4 + self.block_fragment.len() as u32),
            kind: Type::PushPromise,
            flags: make_flags(false, self.end_headers, false),
            stream_id: self.stream_id,
        };
        header.encode(out);
        push_u32(out, self.promised_stream_id.as_u32());
        push_bytes(out, self.block_fragment);
        assert(out@ =~= old(out)@ + frame_wire(self@));
    }
}

/// A probe of the connection, or the answer to one.
#[derive(Copy, Clone, Debug, PartialEq, Eq)]
pub struct Ping {
    pub ack: bool,
    pub opaque: [u8; 8],
}

impl Ping {
    pub open spec fn view(&self) -> FrameView {
        FrameView::Ping { ack: self.ack, opaque: self.opaque@ }
    }

    pub fn parse(header: FrameHeader, payload: &[u8]) -> (r: Result<Self, ParseError>)
        ensures
            match r {
                Ok(frame) => ping_of(header@, payload@) == Ok::<FrameView, ParseError>(frame@),
                Err(error) => ping_of(header@, payload@) == Err::<FrameView, ParseError>(error),
            },
    {
        if payload.len() != 8 {
            return Err(ParseError::FrameSize);
        }
        if !header.stream_id.is_zero() {
            return Err(ParseError::Protocol);
        }
        let opaque: [u8; 8] = [
            payload[0],
            payload[1],
            payload[2],
            payload[3],
            payload[4],
            payload[5],
            payload[6],
            payload[7],
        ];
        assert(opaque@ =~= payload@);
        Ok(Ping { ack: header.flags.has(Flags::ACK), opaque })
    }

    pub fn encode(&self, out: &mut Vec<u8>)
        ensures
            final(out)@ == old(out)@ + frame_wire(self@),
    {
        let header = FrameHeader {
            length: FrameLength(8),
            kind: Type::Ping,
            flags: make_flags(self.ack, false, false),
            stream_id: StreamId::connection(),
        };
        header.encode(out);
        push_bytes(out, self.opaque.as_slice());
    }
}

/// The end of the connection.
#[derive(Copy, Clone, Debug, PartialEq, Eq)]
pub struct GoAway<'a> {
    last_stream_id: StreamId,
    error: ErrorCode,
    debug: &'a [u8],
}

impl<'a> GoAway<'a> {
    pub closed spec fn view(&self) -> FrameView {
        FrameView::GoAway {
            last: self.last_stream_id.value(),
            error: self.error,
            debug: self.debug@,
        }
    }

    #[verifier::type_invariant]
    spec fn inv(self) -> bool {
        frame_fits(self@)
    }

    pub fn new(last_stream_id: StreamId, error: ErrorCode, debug: &'a [u8]) -> (r: Option<Self>)
        ensures
            r is Some <==> 8 + debug@.len() <= FrameLength::MAX,
            r matches Some(frame) ==> frame@ == (FrameView::GoAway {
                last: last_stream_id.value(),
                error,
                debug: debug@,
            }),
    {
        let raw: u32 = last_stream_id.as_u32();
        if debug.len() > FrameLength::MAX as usize - 8 {
            return None;
        }
        Some(GoAway { last_stream_id, error, debug })
    }

    pub fn last_stream_id(&self) -> (r: StreamId)
        ensures
            self@ is GoAway,
            self@->GoAway_last == r.value(),
    {
        self.last_stream_id
    }

    pub fn error(&self) -> (r: ErrorCode)
        ensures
            self@->GoAway_error == r,
    {
        self.error
    }

    pub fn debug(&self) -> (r: &'a [u8])
        ensures
            self@->GoAway_debug == r@,
    {
        self.debug
    }

    pub fn parse(header: FrameHeader, payload: &'a [u8]) -> (r: Result<Self, ParseError>)
        ensures
            match r {
                Ok(frame) => go_away_of(header@, payload@) == Ok::<FrameView, ParseError>(frame@),
                Err(error) => go_away_of(header@, payload@) == Err::<FrameView, ParseError>(error),
            },
    {
        if !header.stream_id.is_zero() {
            return Err(ParseError::Protocol);
        }
        if payload.len() < 8 {
            return Err(ParseError::FrameSize);
        }
        match GoAway::new(
            StreamId::from_wire(read_u32(payload, 0)),
            ErrorCode::from_u32(read_u32(payload, 4)),
            &payload[8..payload.len()],
        ) {
            Some(frame) => Ok(frame),
            None => Err(ParseError::FrameSize),
        }
    }

    pub fn encode(&self, out: &mut Vec<u8>)
        ensures
            final(out)@ == old(out)@ + frame_wire(self@),
    {
        proof {
            use_type_invariant(self);
        }
        let header = FrameHeader {
            length: FrameLength(8 + self.debug.len() as u32),
            kind: Type::GoAway,
            flags: Flags(0),
            stream_id: StreamId::connection(),
        };
        header.encode(out);
        push_u32(out, self.last_stream_id.as_u32());
        push_u32(out, self.error.as_u32());
        push_bytes(out, self.debug);
        assert(out@ =~= old(out)@ + frame_wire(self@));
    }
}

/// More room in a flow-control window.
#[derive(Copy, Clone, Debug, PartialEq, Eq, Structural)]
pub struct WindowUpdate {
    pub stream_id: StreamId,
    pub increment: WindowIncrement,
}

impl WindowUpdate {
    pub open spec fn view(&self) -> FrameView {
        FrameView::WindowUpdate {
            stream: self.stream_id.value(),
            increment: self.increment.value(),
        }
    }

    pub fn parse(header: FrameHeader, payload: &[u8]) -> (r: Result<Self, ParseError>)
        ensures
            match r {
                Ok(frame) => window_update_of(header@, payload@) == Ok::<FrameView, ParseError>(frame@),
                Err(error) => window_update_of(header@, payload@) == Err::<FrameView, ParseError>(error),
            },
    {
        if payload.len() != 4 {
            return Err(ParseError::FrameSize);
        }
        let raw: u32 = read_u32(payload, 0) % 0x8000_0000;
        match WindowIncrement::new(raw) {
            Some(increment) => Ok(WindowUpdate { stream_id: header.stream_id, increment }),
            None => Err(ParseError::ZeroIncrement),
        }
    }

    pub fn encode(&self, out: &mut Vec<u8>)
        ensures
            final(out)@ == old(out)@ + frame_wire(self@),
    {
        let header = FrameHeader {
            length: FrameLength(4),
            kind: Type::WindowUpdate,
            flags: Flags(0),
            stream_id: self.stream_id,
        };
        header.encode(out);
        push_u32(out, self.increment.get());
    }
}

/// More of a block of header fields.
#[derive(Copy, Clone, Debug, PartialEq, Eq)]
pub struct Continuation<'a> {
    stream_id: StreamId,
    end_headers: bool,
    block_fragment: &'a [u8],
}

impl<'a> Continuation<'a> {
    pub closed spec fn view(&self) -> FrameView {
        FrameView::Continuation {
            stream: self.stream_id.value(),
            end_headers: self.end_headers,
            fragment: self.block_fragment@,
        }
    }

    #[verifier::type_invariant]
    spec fn inv(self) -> bool {
        frame_fits(self@)
    }

    pub fn new(stream_id: StreamId, end_headers: bool, block_fragment: &'a [u8]) -> (r: Option<
        Self,
    >)
        ensures
            r is Some <==> stream_id.value() != 0 && block_fragment@.len() <= FrameLength::MAX,
            r matches Some(frame) ==> frame@ == (FrameView::Continuation {
                stream: stream_id.value(),
                end_headers,
                fragment: block_fragment@,
            }),
    {
        let raw: u32 = stream_id.as_u32();
        if raw == 0 || block_fragment.len() > FrameLength::MAX as usize {
            return None;
        }
        Some(Continuation { stream_id, end_headers, block_fragment })
    }

    pub fn stream_id(&self) -> (r: StreamId)
        ensures
            self@ is Continuation,
            self@->Continuation_stream == r.value(),
    {
        self.stream_id
    }

    pub fn end_headers(&self) -> (r: bool)
        ensures
            self@->Continuation_end_headers == r,
    {
        self.end_headers
    }

    pub fn block_fragment(&self) -> (r: &'a [u8])
        ensures
            self@->Continuation_fragment == r@,
    {
        self.block_fragment
    }

    pub fn parse(header: FrameHeader, payload: &'a [u8]) -> (r: Result<Self, ParseError>)
        ensures
            match r {
                Ok(frame) => continuation_of(header@, payload@) == Ok::<FrameView, ParseError>(frame@),
                Err(error) => continuation_of(header@, payload@) == Err::<FrameView, ParseError>(error),
            },
    {
        if header.stream_id.is_zero() {
            return Err(ParseError::Protocol);
        }
        match Continuation::new(
            header.stream_id,
            header.flags.has(Flags::END_HEADERS),
            payload,
        ) {
            Some(frame) => Ok(frame),
            None => Err(ParseError::FrameSize),
        }
    }

    pub fn encode(&self, out: &mut Vec<u8>)
        ensures
            final(out)@ == old(out)@ + frame_wire(self@),
    {
        proof {
            use_type_invariant(self);
        }
        let header = FrameHeader {
            length: FrameLength(self.block_fragment.len() as u32),
            kind: Type::Continuation,
            flags: make_flags(false, self.end_headers, false),
            stream_id: self.stream_id,
        };
        header.encode(out);
        push_bytes(out, self.block_fragment);
    }
}

#[derive(Copy, Clone, Debug, PartialEq, Eq)]
pub enum Frame<'a> {
    Data(Data<'a>),
    Headers(Headers<'a>),
    Priority(Priority),
    RstStream(RstStream),
    Settings(Settings<'a>),
    PushPromise(PushPromise<'a>),
    Ping(Ping),
    GoAway(GoAway<'a>),
    WindowUpdate(WindowUpdate),
    Continuation(Continuation<'a>),
}

impl<'a> Frame<'a> {
    pub open spec fn view(&self) -> FrameView {
        match self {
            Frame::Data(frame) => frame@,
            Frame::Headers(frame) => frame@,
            Frame::Priority(frame) => frame@,
            Frame::RstStream(frame) => frame@,
            Frame::Settings(frame) => frame@,
            Frame::PushPromise(frame) => frame@,
            Frame::Ping(frame) => frame@,
            Frame::GoAway(frame) => frame@,
            Frame::WindowUpdate(frame) => frame@,
            Frame::Continuation(frame) => frame@,
        }
    }

    /// A frame that is there can be put on the wire.
    pub fn check(&self)
        ensures
            frame_fits(self@),
    {
        match self {
            Frame::Data(frame) => {
                proof {
                    use_type_invariant(frame);
                }
            },
            Frame::Headers(frame) => {
                proof {
                    use_type_invariant(frame);
                }
            },
            Frame::Priority(frame) => {
                proof {
                    use_type_invariant(frame);
                }
            },
            Frame::RstStream(frame) => {
                proof {
                    use_type_invariant(frame);
                }
            },
            Frame::Settings(frame) => {
                proof {
                    use_type_invariant(frame);
                }
            },
            Frame::PushPromise(frame) => {
                proof {
                    use_type_invariant(frame);
                }
            },
            Frame::GoAway(frame) => {
                proof {
                    use_type_invariant(frame);
                }
            },
            Frame::WindowUpdate(frame) => {
                let _ = frame.stream_id.as_u32();
                let _ = frame.increment.get();
            },
            Frame::Continuation(frame) => {
                proof {
                    use_type_invariant(frame);
                }
            },
            Frame::Ping(_) => {},
        }
    }

    pub fn parse(buf: &'a [u8]) -> (r: Result<(Self, usize), ParseError>)
        ensures
            match r {
                Ok((frame, used)) => frame_at(buf@) == Ok::<(FrameView, nat), ParseError>(
                    (frame@, used as nat),
                ),
                Err(error) => frame_at(buf@) == Err::<(FrameView, nat), ParseError>(error),
            },
    {
        let header = match FrameHeader::parse(buf) {
            Ok(header) => header,
            Err(error) => return Err(error),
        };
        let total: usize = HEADER_LEN + header.length.as_usize();
        if buf.len() < total {
            return Err(ParseError::NeedMore);
        }
        match Self::parse_payload(header, &buf[HEADER_LEN..total]) {
            Ok(frame) => Ok((frame, total)),
            Err(error) => Err(error),
        }
    }

    pub fn parse_payload(header: FrameHeader, payload: &'a [u8]) -> (r: Result<Self, ParseError>)
        ensures
            match r {
                Ok(frame) => frame_of(header@, payload@) == Ok::<FrameView, ParseError>(frame@),
                Err(error) => frame_of(header@, payload@) == Err::<FrameView, ParseError>(error),
            },
    {
        if payload.len() != header.length.as_usize() {
            return Err(ParseError::BadLength);
        }
        match header.kind {
            Type::Data => match Data::parse(header, payload) {
                Ok(frame) => Ok(Frame::Data(frame)),
                Err(error) => Err(error),
            },
            Type::Headers => match Headers::parse(header, payload) {
                Ok(frame) => Ok(Frame::Headers(frame)),
                Err(error) => Err(error),
            },
            Type::Priority => match Priority::parse(header, payload) {
                Ok(frame) => Ok(Frame::Priority(frame)),
                Err(error) => Err(error),
            },
            Type::RstStream => match RstStream::parse(header, payload) {
                Ok(frame) => Ok(Frame::RstStream(frame)),
                Err(error) => Err(error),
            },
            Type::Settings => match Settings::parse(header, payload) {
                Ok(frame) => Ok(Frame::Settings(frame)),
                Err(error) => Err(error),
            },
            Type::PushPromise => match PushPromise::parse(header, payload) {
                Ok(frame) => Ok(Frame::PushPromise(frame)),
                Err(error) => Err(error),
            },
            Type::Ping => match Ping::parse(header, payload) {
                Ok(frame) => Ok(Frame::Ping(frame)),
                Err(error) => Err(error),
            },
            Type::GoAway => match GoAway::parse(header, payload) {
                Ok(frame) => Ok(Frame::GoAway(frame)),
                Err(error) => Err(error),
            },
            Type::WindowUpdate => match WindowUpdate::parse(header, payload) {
                Ok(frame) => Ok(Frame::WindowUpdate(frame)),
                Err(error) => Err(error),
            },
            Type::Continuation => match Continuation::parse(header, payload) {
                Ok(frame) => Ok(Frame::Continuation(frame)),
                Err(error) => Err(error),
            },
        }
    }

    pub fn encode(&self, out: &mut Vec<u8>)
        ensures
            final(out)@ == old(out)@ + frame_wire(self@),
    {
        match self {
            Frame::Data(frame) => frame.encode(out),
            Frame::Headers(frame) => frame.encode(out),
            Frame::Priority(frame) => frame.encode(out),
            Frame::RstStream(frame) => frame.encode(out),
            Frame::Settings(frame) => frame.encode(out),
            Frame::PushPromise(frame) => frame.encode(out),
            Frame::Ping(frame) => frame.encode(out),
            Frame::GoAway(frame) => frame.encode(out),
            Frame::WindowUpdate(frame) => frame.encode(out),
            Frame::Continuation(frame) => frame.encode(out),
        }
    }
}

#[verifier::spinoff_prover]
#[verifier::rlimit(60)]
proof fn lemma_body_round_trip(f: FrameView)
    requires
        frame_fits(f),
    ensures
        frame_body(f).len() <= FrameLength::MAX,
        frame_mark(f).2 <= StreamId::MAX,
        frame_of(frame_head(f), frame_body(f)) == Ok::<FrameView, ParseError>(f),
{
    let body = frame_body(f);
    match f {
        FrameView::Data { stream, end_stream, payload } => {
            lemma_flag_bits(end_stream, false, false);
        },
        FrameView::Headers { stream, end_stream, end_headers, priority, fragment } => {
            lemma_flag_bits(end_stream, end_headers, priority is Some);
            if let Some(p) = priority {
                lemma_priority_wire(p, fragment);
                assert(body.subrange(5, body.len() as int) =~= fragment);
            }
        },
        FrameView::Priority { stream, fields } => {
            lemma_priority_wire(fields, Seq::empty());
            assert(priority_wire(fields) + Seq::<u8>::empty() =~= body);
        },
        FrameView::RstStream { stream, error } => {
            assert(body.subrange(0, 4) =~= bytes::wire32(error_number(error)));
            bytes::lemma_wire32(error_number(error), body, 0);
        },
        FrameView::Settings { ack, params } => {
            lemma_flag_bits(ack, false, false);
        },
        FrameView::PushPromise { stream, promised, end_headers, fragment } => {
            lemma_flag_bits(false, end_headers, false);
            assert(body.subrange(0, 4) =~= bytes::wire32(promised));
            bytes::lemma_wire32(promised, body, 0);
            assert(body.subrange(4, body.len() as int) =~= fragment);
        },
        FrameView::Ping { ack, opaque } => {
            lemma_flag_bits(ack, false, false);
        },
        FrameView::GoAway { last, error, debug } => {
            assert(body.subrange(0, 4) =~= bytes::wire32(last));
            bytes::lemma_wire32(last, body, 0);
            assert(body.subrange(4, 8) =~= bytes::wire32(error_number(error)));
            bytes::lemma_wire32(error_number(error), body, 4);
            assert(body.subrange(8, body.len() as int) =~= debug);
        },
        FrameView::WindowUpdate { stream, increment } => {
            assert(body.subrange(0, 4) =~= bytes::wire32(increment));
            bytes::lemma_wire32(increment, body, 0);
        },
        FrameView::Continuation { stream, end_headers, fragment } => {
            lemma_flag_bits(false, end_headers, false);
        },
    }
}

/// The header and the payload of a frame on the wire.
pub proof fn lemma_front(f: FrameView, rest: Seq<u8>)
    requires
        frame_fits(f),
    ensures
        head_at(frame_wire(f) + rest) == Ok::<HeadView, ParseError>(frame_head(f)),
        frame_head(f).length == frame_body(f).len(),
        (frame_wire(f) + rest).subrange(HEADER_LEN as int, HEADER_LEN + frame_head(f).length)
            == frame_body(f),
        frame_wire(f).len() == HEADER_LEN + frame_body(f).len(),
{
    let h = frame_head(f);
    let body = frame_body(f);
    lemma_body_round_trip(f);
    law_heads_round_trip(h, body + rest);
    let s = frame_wire(f) + rest;
    assert(s =~= head_wire(h) + (body + rest));
    assert(s.subrange(HEADER_LEN as int, HEADER_LEN + h.length) =~= body);
}

/// What was encoded is parsed back, whatever follows it: the frame, and exactly its bytes.
pub proof fn law_frames_round_trip(f: FrameView, rest: Seq<u8>)
    requires
        frame_fits(f),
    ensures
        frame_at(frame_wire(f) + rest) == Ok::<(FrameView, nat), ParseError>(
            (f, frame_wire(f).len()),
        ),
{
    let h = frame_head(f);
    let body = frame_body(f);
    lemma_body_round_trip(f);
    law_heads_round_trip(h, body + rest);
    let s = frame_wire(f) + rest;
    assert(s =~= head_wire(h) + (body + rest));
    assert(s.subrange(HEADER_LEN as int, HEADER_LEN + h.length) =~= body);
}

/// Every frame that is parsed could also be encoded, so re-encoding never fails.
pub proof fn law_parsed_frames_fit(s: Seq<u8>)
    ensures
        frame_at(s) matches Ok((f, used)) ==> frame_fits(f) && HEADER_LEN <= used <= s.len(),
{
}

} // verus!
