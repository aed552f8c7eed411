//! Failures in words.

use crate::digits;
use crate::digits::push_decimal;
use crate::h2::error::ConnError;
use crate::h2::frame::{ErrorCode, ParseError};
use crate::h2::hpack::DecoderError;
use vstd::prelude::*;
use vstd::string::StringExecFns;

verus! {

/// The name of an error code.
pub open spec fn code_name(e: ErrorCode) -> Seq<char> {
    match e {
        ErrorCode::NoError => "NoError"@,
        ErrorCode::ProtocolError => "ProtocolError"@,
        ErrorCode::InternalError => "InternalError"@,
        ErrorCode::FlowControl => "FlowControl"@,
        ErrorCode::SettingsTimeout => "SettingsTimeout"@,
        ErrorCode::StreamClosed => "StreamClosed"@,
        ErrorCode::FrameSize => "FrameSize"@,
        ErrorCode::RefusedStream => "RefusedStream"@,
        ErrorCode::Cancel => "Cancel"@,
        ErrorCode::Compression => "Compression"@,
        ErrorCode::Connect => "Connect"@,
        ErrorCode::EnhanceYourCalm => "EnhanceYourCalm"@,
        ErrorCode::InadequateSecurity => "InadequateSecurity"@,
        ErrorCode::Http11Required => "Http11Required"@,
    }
}

fn code_name_of(e: ErrorCode) -> (r: &'static str)
    ensures
        r@ == code_name(e),
{
    match e {
        ErrorCode::NoError => "NoError",
        ErrorCode::ProtocolError => "ProtocolError",
        ErrorCode::InternalError => "InternalError",
        ErrorCode::FlowControl => "FlowControl",
        ErrorCode::SettingsTimeout => "SettingsTimeout",
        ErrorCode::StreamClosed => "StreamClosed",
        ErrorCode::FrameSize => "FrameSize",
        ErrorCode::RefusedStream => "RefusedStream",
        ErrorCode::Cancel => "Cancel",
        ErrorCode::Compression => "Compression",
        ErrorCode::Connect => "Connect",
        ErrorCode::EnhanceYourCalm => "EnhanceYourCalm",
        ErrorCode::InadequateSecurity => "InadequateSecurity",
        ErrorCode::Http11Required => "Http11Required",
    }
}

/// The name of a failure of the header decoder.
pub open spec fn decoder_name(e: DecoderError) -> Seq<char> {
    match e {
        DecoderError::NeedMore => "NeedMore"@,
        DecoderError::BadIndex => "BadIndex"@,
        DecoderError::BadInteger => "BadInteger"@,
        DecoderError::BadString => "BadString"@,
        DecoderError::BadDynSizeUpdate => "BadDynSizeUpdate"@,
    }
}

fn decoder_name_of(e: DecoderError) -> (r: &'static str)
    ensures
        r@ == decoder_name(e),
{
    match e {
        DecoderError::NeedMore => "NeedMore",
        DecoderError::BadIndex => "BadIndex",
        DecoderError::BadInteger => "BadInteger",
        DecoderError::BadString => "BadString",
        DecoderError::BadDynSizeUpdate => "BadDynSizeUpdate",
    }
}

/// A failure to parse a frame in words.
pub open spec fn parse_text(e: ParseError) -> Seq<char> {
    match e {
        ParseError::BadType(kind) => "BadType("@ + digits::decimal(kind as nat) + ")"@,
        ParseError::NeedMore => "NeedMore"@,
        ParseError::BadLength => "BadLength"@,
        ParseError::FrameSize => "FrameSize"@,
        ParseError::Protocol => "Protocol"@,
        ParseError::Padding => "Padding"@,
        ParseError::ZeroIncrement => "ZeroIncrement"@,
    }
}

/// A failure of a connection in words.
pub open spec fn conn_text(e: ConnError) -> Seq<char> {
    match e {
        ConnError::ParseError(inner) => "ParseError("@ + parse_text(inner) + ")"@,
        ConnError::GoAwayReceived(code) => "GoAwayReceived("@ + code_name(code) + ")"@,
        ConnError::Hpack(inner) => "Hpack("@ + decoder_name(inner) + ")"@,
        ConnError::BadPreface => "BadPreface"@,
        ConnError::BadSettings => "BadSettings"@,
        ConnError::Protocol => "Protocol"@,
        ConnError::StreamClosed => "StreamClosed"@,
        ConnError::FlowControl => "FlowControl"@,
        ConnError::StreamLimit => "StreamLimit"@,
        ConnError::BadStream => "BadStream"@,
        ConnError::Continuation => "Continuation"@,
        ConnError::FrameSize => "FrameSize"@,
        ConnError::StreamGoneAway => "StreamGoneAway"@,
        ConnError::HeaderListTooLarge => "HeaderListTooLarge"@,
        ConnError::Overload => "Overload"@,
    }
}

fn push_parse(out: &mut String, e: ParseError)
    ensures
        final(out)@ == old(out)@ + parse_text(e),
{
    let ghost before = out@;
    match e {
        ParseError::BadType(kind) => {
            out.append("BadType(");
            push_decimal(out, kind as u64);
            out.append(")");
        },
        ParseError::NeedMore => out.append("NeedMore"),
        ParseError::BadLength => out.append("BadLength"),
        ParseError::FrameSize => out.append("FrameSize"),
        ParseError::Protocol => out.append("Protocol"),
        ParseError::Padding => out.append("Padding"),
        ParseError::ZeroIncrement => out.append("ZeroIncrement"),
    }
    assert(out@ =~= before + parse_text(e));
}

fn push_conn(out: &mut String, e: ConnError)
    ensures
        final(out)@ == old(out)@ + conn_text(e),
{
    let ghost before = out@;
    match e {
        ConnError::ParseError(inner) => {
            out.append("ParseError(");
            push_parse(out, inner);
            out.append(")");
        },
        ConnError::GoAwayReceived(code) => {
            out.append("GoAwayReceived(");
            out.append(code_name_of(code));
            out.append(")");
        },
        ConnError::Hpack(inner) => {
            out.append("Hpack(");
            out.append(decoder_name_of(inner));
            out.append(")");
        },
        ConnError::BadPreface => out.append("BadPreface"),
        ConnError::BadSettings => out.append("BadSettings"),
        ConnError::Protocol => out.append("Protocol"),
        ConnError::StreamClosed => out.append("StreamClosed"),
        ConnError::FlowControl => out.append("FlowControl"),
        ConnError::StreamLimit => out.append("StreamLimit"),
        ConnError::BadStream => out.append("BadStream"),
        ConnError::Continuation => out.append("Continuation"),
        ConnError::FrameSize => out.append("FrameSize"),
        ConnError::StreamGoneAway => out.append("StreamGoneAway"),
        ConnError::HeaderListTooLarge => out.append("HeaderListTooLarge"),
        ConnError::Overload => out.append("Overload"),
    }
    assert(out@ =~= before + conn_text(e));
}

/// A failure of a connection in words.
pub fn conn_failure(e: ConnError) -> (r: String)
    ensures
        r@ == "HTTP/2 error: "@ + conn_text(e),
{
    let mut out: String = "HTTP/2 error: ".to_owned();
    push_conn(&mut out, e);
    out
}

/// The reset of a stream in words.
pub fn stream_reset(code: ErrorCode) -> (r: String)
    ensures
        r@ == "HTTP/2 stream reset: "@ + code_name(code),
{
    let mut out: String = "HTTP/2 stream reset: ".to_owned();
    out.append(code_name_of(code));
    out
}

/// The names of failures, as they are told.
pub proof fn law_failures_have_their_names(code: ErrorCode, e: DecoderError, p: ParseError)
    ensures
        conn_text(ConnError::BadPreface) == "BadPreface"@,
        conn_text(ConnError::BadSettings) == "BadSettings"@,
        conn_text(ConnError::Protocol) == "Protocol"@,
        conn_text(ConnError::StreamClosed) == "StreamClosed"@,
        conn_text(ConnError::FlowControl) == "FlowControl"@,
        conn_text(ConnError::StreamLimit) == "StreamLimit"@,
        conn_text(ConnError::BadStream) == "BadStream"@,
        conn_text(ConnError::Continuation) == "Continuation"@,
        conn_text(ConnError::FrameSize) == "FrameSize"@,
        conn_text(ConnError::StreamGoneAway) == "StreamGoneAway"@,
        conn_text(ConnError::HeaderListTooLarge) == "HeaderListTooLarge"@,
        conn_text(ConnError::Overload) == "Overload"@,
        conn_text(ConnError::GoAwayReceived(code)) == "GoAwayReceived("@ + code_name(code) + ")"@,
        conn_text(ConnError::Hpack(e)) == "Hpack("@ + decoder_name(e) + ")"@,
        conn_text(ConnError::ParseError(p)) == "ParseError("@ + parse_text(p) + ")"@,
        code_name(ErrorCode::NoError) == "NoError"@,
        code_name(ErrorCode::ProtocolError) == "ProtocolError"@,
        code_name(ErrorCode::InternalError) == "InternalError"@,
        code_name(ErrorCode::FlowControl) == "FlowControl"@,
        code_name(ErrorCode::SettingsTimeout) == "SettingsTimeout"@,
        code_name(ErrorCode::StreamClosed) == "StreamClosed"@,
        code_name(ErrorCode::FrameSize) == "FrameSize"@,
        code_name(ErrorCode::RefusedStream) == "RefusedStream"@,
        code_name(ErrorCode::Cancel) == "Cancel"@,
        code_name(ErrorCode::Compression) == "Compression"@,
        code_name(ErrorCode::Connect) == "Connect"@,
        code_name(ErrorCode::EnhanceYourCalm) == "EnhanceYourCalm"@,
        code_name(ErrorCode::InadequateSecurity) == "InadequateSecurity"@,
        code_name(ErrorCode::Http11Required) == "Http11Required"@,
        decoder_name(DecoderError::BadIndex) == "BadIndex"@,
        decoder_name(DecoderError::BadInteger) == "BadInteger"@,
        decoder_name(DecoderError::BadString) == "BadString"@,
        decoder_name(DecoderError::BadDynSizeUpdate) == "BadDynSizeUpdate"@,
        decoder_name(DecoderError::NeedMore) == "NeedMore"@,
{
}

} // verus!
