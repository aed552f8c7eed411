//! How a call has ended.

use crate::bytes;
use crate::grpc::frame::FrameError;
use crate::grpc::headers;
use crate::grpc::metadata::{Metadata, MetadataError};
use crate::grpc::text;
use crate::h2::error::ConnError;
use crate::h2::frame::ErrorCode;
use crate::h2::hpack::FieldView;
use vstd::prelude::*;

verus! {

#[derive(Copy, Clone, Debug, PartialEq, Eq, Structural)]
pub enum Code {
    Okay,
    Cancelled,
    Unknown,
    InvalidArgument,
    DeadlineExceeded,
    NotFound,
    AlreadyExists,
    PermissionDenied,
    ResourceExhausted,
    FailedPrecondition,
    Aborted,
    OutOfRange,
    Unimplemented,
    Internal,
    Unavailable,
    DataLoss,
    Unauthenticated,
}

/// The number of a code.
pub open spec fn code_number(code: Code) -> u8 {
    match code {
        Code::Okay => 0,
        Code::Cancelled => 1,
        Code::Unknown => 2,
        Code::InvalidArgument => 3,
        Code::DeadlineExceeded => 4,
        Code::NotFound => 5,
        Code::AlreadyExists => 6,
        Code::PermissionDenied => 7,
        Code::ResourceExhausted => 8,
        Code::FailedPrecondition => 9,
        Code::Aborted => 10,
        Code::OutOfRange => 11,
        Code::Unimplemented => 12,
        Code::Internal => 13,
        Code::Unavailable => 14,
        Code::DataLoss => 15,
        Code::Unauthenticated => 16,
    }
}

/// Whether a byte is a digit.
pub open spec fn is_digit(b: u8) -> bool {
    0x30 <= b <= 0x39
}

/// The number that one or two digits write.
pub open spec fn small_number(s: Seq<u8>) -> Option<int> {
    if s.len() == 1 && is_digit(s[0]) {
        Some(s[0] - 0x30)
    } else if s.len() == 2 && is_digit(s[0]) && is_digit(s[1]) {
        Some((s[0] - 0x30) * 10 + (s[1] - 0x30))
    } else {
        None
    }
}

/// Whether `s` writes a code.
pub open spec fn writes_code(s: Seq<u8>, code: Code) -> bool {
    small_number(s) == Some(code_number(code) as int)
}

impl Code {
    pub fn from_u8(value: u8) -> (r: Option<Self>)
        ensures
            r is Some <==> value <= 16,
            r matches Some(code) ==> code_number(code) == value,
    {
        match value {
            0 => Some(Code::Okay),
            1 => Some(Code::Cancelled),
            2 => Some(Code::Unknown),
            3 => Some(Code::InvalidArgument),
            4 => Some(Code::DeadlineExceeded),
            5 => Some(Code::NotFound),
            6 => Some(Code::AlreadyExists),
            7 => Some(Code::PermissionDenied),
            8 => Some(Code::ResourceExhausted),
            9 => Some(Code::FailedPrecondition),
            10 => Some(Code::Aborted),
            11 => Some(Code::OutOfRange),
            12 => Some(Code::Unimplemented),
            13 => Some(Code::Internal),
            14 => Some(Code::Unavailable),
            15 => Some(Code::DataLoss),
            16 => Some(Code::Unauthenticated),
            _ => None,
        }
    }

    pub fn as_u8(self) -> (r: u8)
        ensures
            r == code_number(self),
            r <= 16,
    {
        match self {
            Code::Okay => 0,
            Code::Cancelled => 1,
            Code::Unknown => 2,
            Code::InvalidArgument => 3,
            Code::DeadlineExceeded => 4,
            Code::NotFound => 5,
            Code::AlreadyExists => 6,
            Code::PermissionDenied => 7,
            Code::ResourceExhausted => 8,
            Code::FailedPrecondition => 9,
            Code::Aborted => 10,
            Code::OutOfRange => 11,
            Code::Unimplemented => 12,
            Code::Internal => 13,
            Code::Unavailable => 14,
            Code::DataLoss => 15,
            Code::Unauthenticated => 16,
        }
    }

    /// The code that one or two digits write.
    pub fn parse_ascii(input: &[u8]) -> (r: Option<Self>)
        ensures
            match r {
                Some(code) => writes_code(input@, code),
                None => forall|code: Code| !#[trigger] writes_code(input@, code),
            },
    {
        if input.len() == 0 || input.len() > 2 {
            return None;
        }
        let mut value: u8 = 0;
        let mut i: usize = 0;
        while i < input.len()
            invariant
                i <= input@.len(),
                1 <= input@.len() <= 2,
                forall|k: int| 0 <= k < i ==> is_digit(#[trigger] input@[k]),
                i == 0 ==> value == 0,
                i == 1 ==> value == input@[0] - 0x30,
                i == 2 ==> value == (input@[0] - 0x30) * 10 + (input@[1] - 0x30),
            decreases input@.len() - i,
        {
            let b: u8 = input[i];
            if b < 0x30 || b > 0x39 {
                return None;
            }
            value = value * 10 + (b - 0x30);
            i = i + 1;
        }
        Code::from_u8(value)
    }
}

/// A code and a text.
pub struct StatusView {
    pub code: Code,
    pub message: Seq<char>,
}

/// A status with a text that is written in the source.
pub open spec fn fixed(code: Code, message: &str) -> StatusView {
    StatusView { code, message: message@ }
}

/// The digits of a code.
pub open spec fn code_digits(code: Code) -> Seq<u8> {
    let n = code_number(code);
    if n >= 10 {
        seq![0x31, (0x30 + (n - 10)) as u8]
    } else {
        seq![(0x30 + n) as u8]
    }
}

/// Whether a byte of a text is sent as it is.
pub open spec fn is_plain(b: u8) -> bool {
    0x20 <= b <= 0x7e && b != 0x25
}

/// A digit to the base of sixteen.
pub open spec fn hex_digit(n: u8) -> u8 {
    if n <= 9 {
        (0x30 + n) as u8
    } else {
        (0x41 + (n - 10)) as u8
    }
}

/// The value of a digit to the base of sixteen.
pub open spec fn hex_value(b: u8) -> Option<u8> {
    if 0x30 <= b <= 0x39 {
        Some((b - 0x30) as u8)
    } else if 0x61 <= b <= 0x66 {
        Some((10 + (b - 0x61)) as u8)
    } else if 0x41 <= b <= 0x46 {
        Some((10 + (b - 0x41)) as u8)
    } else {
        None
    }
}

/// How one byte of a text is sent.
pub open spec fn encoded_byte(b: u8) -> Seq<u8> {
    if is_plain(b) {
        seq![b]
    } else {
        seq![0x25, hex_digit(b / 16), hex_digit(b % 16)]
    }
}

/// How a text is sent.
pub open spec fn encoded(s: Seq<u8>) -> Seq<u8>
    decreases s.len(),
{
    if s.len() == 0 {
        Seq::empty()
    } else {
        encoded(s.drop_last()) + encoded_byte(s.last())
    }
}

/// What a text that was sent means.
pub open spec fn decoded(s: Seq<u8>) -> Seq<u8>
    decreases s.len(),
{
    if s.len() == 0 {
        Seq::empty()
    } else if s[0] == 0x25 && s.len() > 2 && hex_value(s[1]) is Some && hex_value(s[2]) is Some {
        seq![(hex_value(s[1])->0 * 16 + hex_value(s[2])->0) as u8] + decoded(
            s.subrange(3, s.len() as int),
        )
    } else {
        seq![s[0]] + decoded(s.drop_first())
    }
}

proof fn lemma_hex(b: u8)
    ensures
        hex_value(hex_digit(b / 16)) == Some((b / 16) as u8),
        hex_value(hex_digit(b % 16)) == Some((b % 16) as u8),
        (b / 16) * 16 + b % 16 == b,
{
}

proof fn lemma_encoded_front(s: Seq<u8>)
    requires
        s.len() > 0,
    ensures
        encoded(s) == encoded_byte(s[0]) + encoded(s.drop_first()),
    decreases s.len(),
{
    if s.len() == 1 {
        assert(s.drop_last() =~= Seq::<u8>::empty());
        assert(s.drop_first() =~= Seq::<u8>::empty());
        assert(encoded(s) =~= encoded_byte(s[0]) + encoded(s.drop_first()));
    } else {
        lemma_encoded_front(s.drop_last());
        assert(s.drop_last().drop_first() =~= s.drop_first().drop_last());
        assert(encoded(s) =~= encoded_byte(s[0]) + encoded(s.drop_first()));
    }
}

/// Every text comes back from what is sent of it.
pub proof fn law_texts_round_trip(s: Seq<u8>)
    ensures
        decoded(encoded(s)) == s,
    decreases s.len(),
{
    if s.len() > 0 {
        lemma_encoded_front(s);
        let rest = s.drop_first();
        law_texts_round_trip(rest);
        let e = encoded(s);
        lemma_hex(s[0]);
        if is_plain(s[0]) {
            assert(e.drop_first() =~= encoded(rest));
        } else {
            assert(e.subrange(3, e.len() as int) =~= encoded(rest));
        }
        assert(seq![s[0]] + rest =~= s);
    }
}

/// Every code comes back from its digits, and from no others of them.
pub proof fn law_codes_round_trip(code: Code, other: Code)
    ensures
        writes_code(code_digits(code), code),
        writes_code(code_digits(code), other) ==> other == code,
{
}

/// What a list of bytes means as text, with a mark for what is no text.
pub uninterp spec fn utf8_lossy(bytes: Seq<u8>) -> Seq<char>;

/// `String::from_utf8_lossy`: the text that the bytes are, where they are UTF-8; otherwise
/// marks stand for what is not. Which marks is not said here.
#[verifier::external_body]
fn from_utf8_lossy(bytes: &[u8]) -> (r: String)
    ensures
        r@ == utf8_lossy(bytes@),
        vstd::utf8::valid_utf8(bytes@) ==> r@ == vstd::utf8::decode_utf8(bytes@),
{
    String::from_utf8_lossy(bytes).into_owned()
}

/// The text that bytes stand for.
pub open spec fn text_of(bytes: Seq<u8>) -> Seq<char> {
    if vstd::utf8::valid_utf8(bytes) {
        vstd::utf8::decode_utf8(bytes)
    } else {
        utf8_lossy(bytes)
    }
}

#[derive(Clone, Debug, PartialEq, Eq)]
pub struct Status {
    code: Code,
    message: String,
}

/// What a code and a text that were sent say of how a call has ended.
pub open spec fn ended(code: Option<Seq<u8>>, message: Option<Seq<u8>>) -> Result<
    StatusView,
    StatusView,
> {
    if code is None {
        Err(fixed(Code::Internal, "missing grpc-status"))
    } else if !(exists|c: Code| #[trigger] writes_code(code->0, c)) {
        Err(fixed(Code::Internal, "invalid grpc-status"))
    } else {
        Ok(
            StatusView {
                code: choose|c: Code| #[trigger] writes_code(code->0, c),
                message: match message {
                    Some(text) => text_of(decoded(text)),
                    None => Seq::empty(),
                },
            },
        )
    }
}

/// What trailers say of how a call has ended.
pub open spec fn trailers_status(list: Seq<FieldView>) -> Result<StatusView, StatusView> {
    ended(
        headers::first_of(list, bytes::text("grpc-status")),
        headers::first_of(list, bytes::text("grpc-message")),
    )
}

/// What a failure of the connection means for a call.
pub open spec fn conn_failure(e: ConnError) -> StatusView {
    StatusView {
        code: match e {
            ConnError::StreamGoneAway => Code::Unavailable,
            ConnError::GoAwayReceived(_) => Code::Unavailable,
            ConnError::StreamClosed => Code::Unavailable,
            ConnError::StreamLimit => Code::ResourceExhausted,
            ConnError::FlowControl => Code::ResourceExhausted,
            ConnError::Overload => Code::ResourceExhausted,
            _ => Code::Internal,
        },
        message: "HTTP/2 error: "@ + text::conn_text(e),
    }
}

/// What a failure to read a message means for a call.
pub open spec fn frame_failure(e: FrameError) -> StatusView {
    match e {
        FrameError::BadCompressionFlag(_) => fixed(
            Code::InvalidArgument,
            "bad gRPC compression flag",
        ),
        FrameError::MessageTooLarge { .. } => fixed(
            Code::ResourceExhausted,
            "gRPC message too large",
        ),
        FrameError::LengthOverflow => fixed(Code::Internal, "gRPC message length overflow"),
        FrameError::Capacity => fixed(Code::ResourceExhausted, "gRPC message pool is full"),
    }
}

/// What the reset of a stream means for its call.
pub open spec fn reset_failure(e: ErrorCode) -> StatusView {
    match e {
        ErrorCode::Cancel => fixed(Code::Cancelled, "HTTP/2 stream cancelled"),
        ErrorCode::RefusedStream => fixed(Code::Unavailable, "HTTP/2 stream refused"),
        _ => StatusView {
            code: Code::Internal,
            message: "HTTP/2 stream reset: "@ + text::code_name(e),
        },
    }
}

/// What a bad name means for a call.
pub open spec fn metadata_failure() -> StatusView {
    fixed(Code::InvalidArgument, "invalid metadata name")
}

impl Status {
    pub closed spec fn view(&self) -> StatusView {
        StatusView { code: self.code, message: self.message@ }
    }

    pub fn new(code: Code, message: &str) -> (r: Self)
        ensures
            r@ == fixed(code, message),
    {
        Status { code, message: message.to_owned() }
    }

    /// A status with a text that the caller gives away.
    pub fn with_text(code: Code, message: String) -> (r: Self)
        ensures
            r@ == (StatusView { code, message: message@ }),
    {
        Status { code, message }
    }

    pub fn ok() -> (r: Self)
        ensures
            r@ == (StatusView { code: Code::Okay, message: Seq::empty() }),
    {
        Status { code: Code::Okay, message: String::new() }
    }

    pub fn code(&self) -> (r: Code)
        ensures
            r == self@.code,
    {
        self.code
    }

    pub fn message(&self) -> (r: &str)
        ensures
            r@ == self@.message,
    {
        self.message.as_str()
    }

    /// What trailers say of how a call has ended.
    pub fn from_trailers(trailers: &Metadata) -> (r: Result<Self, Status>)
        ensures
            match r {
                Ok(status) => trailers_status(trailers@) == Ok::<StatusView, StatusView>(status@),
                Err(status) => trailers_status(trailers@) == Err::<StatusView, StatusView>(
                    status@,
                ),
            },
    {
        Status::from_values(
            trailers.get(bytes::text_bytes("grpc-status")),
            trailers.get(bytes::text_bytes("grpc-message")),
        )
    }

    /// How a call has ended, of the code and the text that were sent.
    pub fn from_values(code: Option<&[u8]>, message: Option<&[u8]>) -> (r: Result<Self, Status>)
        ensures
            match r {
                Ok(status) => ended(headers::value_view(code), headers::value_view(message)) == Ok::<
                    StatusView,
                    StatusView,
                >(status@),
                Err(status) => ended(headers::value_view(code), headers::value_view(message))
                    == Err::<StatusView, StatusView>(status@),
            },
    {
        let raw_code: &[u8] = match code {
            None => return Err(Status::new(Code::Internal, "missing grpc-status")),
            Some(raw) => raw,
        };
        let code: Code = match Code::parse_ascii(raw_code) {
            None => return Err(Status::new(Code::Internal, "invalid grpc-status")),
            Some(code) => code,
        };
        proof {
            let chosen = choose|c: Code| #[trigger] writes_code(raw_code@, c);
            assert(writes_code(raw_code@, code));
            assert(writes_code(raw_code@, chosen));
            lemma_code_number(chosen, code);
        }
        match message {
            None => Ok(Status { code, message: String::new() }),
            Some(raw) => Ok(Status { code, message: Status::decode_message(raw) }),
        }
    }

    /// Writes the code in digits.
    pub fn write_grpc_status_value(&self, out: &mut Vec<u8>)
        ensures
            final(out)@ == old(out)@ + code_digits(self@.code),
    {
        let code: u8 = self.code.as_u8();
        let ghost before = out@;
        if code >= 10 {
            out.push(0x31);
            out.push(0x30 + (code - 10));
        } else {
            out.push(0x30 + code);
        }
        assert(out@ =~= before + code_digits(self@.code));
    }

    /// Writes a text as it is sent.
    pub fn encode_message(message: &str, out: &mut Vec<u8>)
        ensures
            final(out)@ == old(out)@ + encoded(bytes::text(message)),
    {
        let text: &[u8] = message.as_bytes();
        let ghost before = out@;
        let mut i: usize = 0;
        assert(before + encoded(text@.subrange(0, 0)) =~= before);
        while i < text.len()
            invariant
                i <= text@.len(),
                out@ == before + encoded(text@.subrange(0, i as int)),
            decreases text@.len() - i,
        {
            let b: u8 = text[i];
            let ghost at = out@;
            let ghost more = text@.subrange(0, i + 1);
            assert(more.drop_last() =~= text@.subrange(0, i as int));
            if 0x20 <= b && b <= 0x7e && b != 0x25 {
                out.push(b);
            } else {
                out.push(0x25);
                out.push(Status::hex(b / 16));
                out.push(Status::hex(b % 16));
            }
            assert(out@ =~= at + encoded_byte(b));
            assert(out@ =~= before + encoded(more));
            i = i + 1;
        }
        assert(text@.subrange(0, text@.len() as int) =~= text@);
    }

    /// What a text that was sent means. A text that `encode_message` wrote comes back.
    pub fn decode_message(input: &[u8]) -> (r: String)
        ensures
            r@ == text_of(decoded(input@)),
            forall|s: Seq<char>| input@ == #[trigger] encoded(vstd::utf8::encode_utf8(s)) ==> r@
                == s,
    {
        let mut out: Vec<u8> = Vec::new();
        let mut i: usize = 0;
        assert(input@.subrange(0, input@.len() as int) =~= input@);
        while i < input.len()
            invariant
                i <= input@.len(),
                decoded(input@) == out@ + decoded(input@.subrange(i as int, input@.len() as int)),
            decreases input@.len() - i,
        {
            let ghost rest = input@.subrange(i as int, input@.len() as int);
            let ghost before = out@;
            if input[i] == 0x25 && input.len() - i > 2 {
                if let Some(hi) = Status::unhex(input[i + 1]) {
                    if let Some(lo) = Status::unhex(input[i + 2]) {
                        let byte: u8 = hi * 16 + lo;
                        out.push(byte);
                        assert(rest.subrange(3, rest.len() as int) =~= input@.subrange(
                            i + 3,
                            input@.len() as int,
                        ));
                        assert(out@ + decoded(input@.subrange(i + 3, input@.len() as int))
                            =~= before + decoded(rest));
                        i = i + 3;
                        continue;
                    }
                }
            }
            out.push(input[i]);
            assert(rest.drop_first() =~= input@.subrange(i + 1, input@.len() as int));
            assert(out@ + decoded(input@.subrange(i + 1, input@.len() as int)) =~= before + decoded(
                rest,
            ));
            i = i + 1;
        }
        assert(out@ =~= decoded(input@));
        proof {
            assert forall|s: Seq<char>| input@ == #[trigger] encoded(
                vstd::utf8::encode_utf8(s),
            ) implies vstd::utf8::valid_utf8(out@) && vstd::utf8::decode_utf8(out@) == s by {
                law_texts_round_trip(vstd::utf8::encode_utf8(s));
                vstd::utf8::encode_utf8_valid_utf8(s);
                vstd::utf8::encode_utf8_decode_utf8(s);
            }
        }
        from_utf8_lossy(out.as_slice())
    }

    pub fn from_conn_err(err: ConnError) -> (r: Status)
        ensures
            r@ == conn_failure(err),
    {
        let code: Code = match err {
            ConnError::StreamGoneAway => Code::Unavailable,
            ConnError::GoAwayReceived(_) => Code::Unavailable,
            ConnError::StreamClosed => Code::Unavailable,
            ConnError::StreamLimit => Code::ResourceExhausted,
            ConnError::FlowControl => Code::ResourceExhausted,
            ConnError::Overload => Code::ResourceExhausted,
            _ => Code::Internal,
        };
        Status::with_text(code, text::conn_failure(err))
    }

    pub fn from_frame_err(err: FrameError) -> (r: Status)
        ensures
            r@ == frame_failure(err),
    {
        match err {
            FrameError::BadCompressionFlag(_) => Status::new(
                Code::InvalidArgument,
                "bad gRPC compression flag",
            ),
            FrameError::MessageTooLarge { .. } => Status::new(
                Code::ResourceExhausted,
                "gRPC message too large",
            ),
            FrameError::LengthOverflow => Status::new(
                Code::Internal,
                "gRPC message length overflow",
            ),
            FrameError::Capacity => Status::new(
                Code::ResourceExhausted,
                "gRPC message pool is full",
            ),
        }
    }

    pub fn from_reset_err(error: ErrorCode) -> (r: Status)
        ensures
            r@ == reset_failure(error),
    {
        match error {
            ErrorCode::Cancel => Status::new(Code::Cancelled, "HTTP/2 stream cancelled"),
            ErrorCode::RefusedStream => Status::new(Code::Unavailable, "HTTP/2 stream refused"),
            _ => Status::with_text(Code::Internal, text::stream_reset(error)),
        }
    }

    pub fn from_metadata_err(_error: MetadataError) -> (r: Status)
        ensures
            r@ == metadata_failure(),
    {
        Status::new(Code::InvalidArgument, "invalid metadata name")
    }

    fn hex(n: u8) -> (r: u8)
        requires
            n < 16,
        ensures
            r == hex_digit(n),
    {
        if n <= 9 {
            0x30 + n
        } else {
            0x41 + (n - 10)
        }
    }

    fn unhex(b: u8) -> (r: Option<u8>)
        ensures
            r == hex_value(b),
            r matches Some(n) ==> n < 16,
    {
        if 0x30 <= b && b <= 0x39 {
            Some(b - 0x30)
        } else if 0x61 <= b && b <= 0x66 {
            Some(10 + (b - 0x61))
        } else if 0x41 <= b && b <= 0x46 {
            Some(10 + (b - 0x41))
        } else {
            None
        }
    }
}

proof fn lemma_code_number(a: Code, b: Code)
    requires
        code_number(a) == code_number(b),
    ensures
        a == b,
{
}

} // verus!
