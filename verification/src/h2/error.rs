//! What can go wrong on a connection.

use crate::h2::flow;
use crate::h2::frame::{ErrorCode, ParseError};
use crate::h2::hpack::DecoderError;
use vstd::prelude::*;

verus! {

#[derive(Copy, Clone, Debug, PartialEq, Eq, Structural)]
pub enum ConnError {
    BadPreface,
    BadSettings,
    ParseError(ParseError),
    Protocol,
    StreamClosed,
    FlowControl,
    GoAwayReceived(ErrorCode),
    StreamLimit,
    Hpack(DecoderError),
    BadStream,
    Continuation,
    FrameSize,
    StreamGoneAway,
    HeaderListTooLarge,
    Overload,
}

/// What a frame that cannot be parsed means for the connection.
pub open spec fn parse_failure(error: ParseError) -> ConnError {
    match error {
        ParseError::BadLength => ConnError::FrameSize,
        other => ConnError::ParseError(other),
    }
}

impl vstd::std_specs::convert::FromSpecImpl<ParseError> for ConnError {
    open spec fn obeys_from_spec() -> bool {
        true
    }

    open spec fn from_spec(error: ParseError) -> Self {
        parse_failure(error)
    }
}

impl From<ParseError> for ConnError {
    fn from(error: ParseError) -> Self {
        match error {
            ParseError::BadLength => ConnError::FrameSize,
            other => ConnError::ParseError(other),
        }
    }
}

/// What a window that cannot move means for the connection.
pub open spec fn window_failure(error: flow::Error) -> ConnError {
    match error {
        flow::Error::ZeroIncrement => ConnError::Protocol,
        _ => ConnError::FlowControl,
    }
}

impl vstd::std_specs::convert::FromSpecImpl<flow::Error> for ConnError {
    open spec fn obeys_from_spec() -> bool {
        true
    }

    open spec fn from_spec(error: flow::Error) -> Self {
        window_failure(error)
    }
}

impl From<flow::Error> for ConnError {
    fn from(error: flow::Error) -> Self {
        match error {
            flow::Error::ZeroIncrement => ConnError::Protocol,
            flow::Error::Overflow => ConnError::FlowControl,
            flow::Error::Stalled => ConnError::FlowControl,
        }
    }
}

impl vstd::std_specs::convert::FromSpecImpl<DecoderError> for ConnError {
    open spec fn obeys_from_spec() -> bool {
        true
    }

    open spec fn from_spec(error: DecoderError) -> Self {
        ConnError::Hpack(error)
    }
}

impl From<DecoderError> for ConnError {
    fn from(error: DecoderError) -> Self {
        ConnError::Hpack(error)
    }
}

/// The code that tells the peer of an error.
pub open spec fn code_for(error: ConnError) -> ErrorCode {
    match error {
        ConnError::StreamClosed => ErrorCode::StreamClosed,
        ConnError::ParseError(ParseError::FrameSize) => ErrorCode::FrameSize,
        ConnError::FlowControl => ErrorCode::FlowControl,
        ConnError::FrameSize => ErrorCode::FrameSize,
        ConnError::Hpack(_) => ErrorCode::Compression,
        ConnError::GoAwayReceived(code) => code,
        ConnError::StreamLimit => ErrorCode::RefusedStream,
        ConnError::HeaderListTooLarge | ConnError::Overload => ErrorCode::EnhanceYourCalm,
        _ => ErrorCode::ProtocolError,
    }
}

impl vstd::std_specs::convert::FromSpecImpl<&ConnError> for ErrorCode {
    open spec fn obeys_from_spec() -> bool {
        true
    }

    open spec fn from_spec(error: &ConnError) -> Self {
        code_for(*error)
    }
}

impl From<&ConnError> for ErrorCode {
    fn from(error: &ConnError) -> Self {
        match error {
            ConnError::BadPreface
            | ConnError::Protocol
            | ConnError::BadStream
            | ConnError::Continuation
            | ConnError::BadSettings
            | ConnError::StreamGoneAway => ErrorCode::ProtocolError,
            ConnError::StreamClosed => ErrorCode::StreamClosed,
            ConnError::ParseError(ParseError::FrameSize) => ErrorCode::FrameSize,
            ConnError::ParseError(_) => ErrorCode::ProtocolError,
            ConnError::FlowControl => ErrorCode::FlowControl,
            ConnError::FrameSize => ErrorCode::FrameSize,
            ConnError::Hpack(_) => ErrorCode::Compression,
            ConnError::GoAwayReceived(code) => *code,
            ConnError::StreamLimit => ErrorCode::RefusedStream,
            ConnError::HeaderListTooLarge | ConnError::Overload => ErrorCode::EnhanceYourCalm,
        }
    }
}

} // verus!
