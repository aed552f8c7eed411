//! What is fixed for all who speak the protocol: the fields that open and end a call, the numbers
//! of the codes, how texts are sent, and the bytes of messages.

use crate::bytes;
use crate::grpc::frame;
use crate::grpc::frame::{FrameError, FrameView};
use crate::grpc::headers;
use crate::grpc::headers::RequestHeadView;
use crate::grpc::laws;
use crate::grpc::metadata;
use crate::grpc::metadata::MetadataError;
use crate::grpc::status;
use crate::grpc::status::{Code, StatusView};
use crate::h2::conn::answers;
use crate::h2::error::ConnError;
use crate::h2::frame::{ErrorCode, ParseError};
use crate::h2::hpack::{DecoderError, FieldView};
use vstd::prelude::*;

verus! {

/// A field with a name and a value that are texts.
pub open spec fn named(name: &str, value: &str) -> FieldView {
    FieldView { name: bytes::text(name), value: bytes::text(value) }
}

/// Whether bytes hold no slash.
pub open spec fn unbroken(s: Seq<u8>) -> bool {
    forall|i: int| 0 <= i < s.len() ==> #[trigger] s[i] != 0x2f
}

proof fn lemma_unbroken(s: Seq<u8>)
    requires
        unbroken(s),
    ensures
        headers::slashes(s) == 0,
    decreases s.len(),
{
    if s.len() > 0 {
        assert forall|i: int| 0 <= i < s.drop_last().len() implies #[trigger] s.drop_last()[i]
            != 0x2f by {
            assert(s.drop_last()[i] == s[i]);
        }
        lemma_unbroken(s.drop_last());
        assert(s.last() == s[s.len() - 1]);
    }
}

proof fn lemma_slashes(a: Seq<u8>, b: Seq<u8>)
    ensures
        headers::slashes(a + b) == headers::slashes(a) + headers::slashes(b),
    decreases b.len(),
{
    if b.len() == 0 {
        assert(a + b =~= a);
    } else {
        assert((a + b).drop_last() =~= a + b.drop_last());
        lemma_slashes(a, b.drop_last());
    }
}

/// The path of a method of a service.
pub open spec fn path_of(service: Seq<u8>, method: Seq<u8>) -> Seq<u8> {
    seq![0x2fu8] + service + seq![0x2fu8] + method
}

proof fn lemma_path(service: Seq<u8>, method: Seq<u8>)
    requires
        unbroken(service),
        unbroken(method),
    ensures
        headers::is_path(path_of(service, method)),
{
    let slash = seq![0x2fu8];
    lemma_unbroken(service);
    lemma_unbroken(method);
    assert(slash.drop_last() =~= Seq::<u8>::empty());
    assert(headers::slashes(slash.drop_last()) == 0);
    assert(headers::slashes(slash) == 1);
    lemma_slashes(slash, service);
    lemma_slashes(slash + service, slash);
    lemma_slashes(slash + service + slash, method);
    reveal_strlit("/");
    bytes::lemma_text("/");
    let path = path_of(service, method);
    assert(path.subrange(0, 1) =~= bytes::text("/"));
}

/// Whether a name is the application's to give: it does not begin with a colon or with `grpc-`,
/// and it is neither `content-type` nor `te`.
pub open spec fn free(name: Seq<u8>) -> bool {
    &&& name.len() > 0 ==> name[0] != 0x3a
    &&& !(name.len() >= 5 && name[0] == 0x67 && name[1] == 0x72 && name[2] == 0x70 && name[3]
        == 0x63 && name[4] == 0x2d)
    &&& name != bytes::text("content-type")
    &&& name != bytes::text("te")
}

proof fn lemma_free(name: Seq<u8>)
    ensures
        free(name) == headers::is_extra(name),
{
    reveal_strlit(":");
    reveal_strlit("grpc-");
    bytes::lemma_text(":");
    bytes::lemma_text("grpc-");
    let colon = bytes::text(":");
    let start = bytes::text("grpc-");
    if name.len() >= 1 {
        if name[0] == 0x3a {
            assert(name.subrange(0, 1) =~= colon);
        } else if name.subrange(0, 1) == colon {
            assert(name.subrange(0, 1)[0] == colon[0]);
        }
    }
    if name.len() >= 5 {
        let cut = name.subrange(0, 5);
        assert(cut[0] == name[0] && cut[1] == name[1] && cut[2] == name[2] && cut[3] == name[3]
            && cut[4] == name[4]);
        if name[0] == 0x67 && name[1] == 0x72 && name[2] == 0x70 && name[3] == 0x63 && name[4]
            == 0x2d {
            assert(cut =~= start);
        }
    }
}

proof fn lemma_all_free(list: Seq<FieldView>)
    ensures
        (forall|i: int| 0 <= i < list.len() ==> free((#[trigger] list[i]).name))
            == headers::all_extra(list),
{
    if forall|i: int| 0 <= i < list.len() ==> free((#[trigger] list[i]).name) {
        assert forall|i: int| 0 <= i < list.len() implies headers::is_extra(
            (#[trigger] list[i]).name,
        ) by {
            lemma_free(list[i].name);
        }
    }
    if headers::all_extra(list) {
        assert forall|i: int| 0 <= i < list.len() implies free((#[trigger] list[i]).name) by {
            lemma_free(list[i].name);
        }
    }
}

/// The fields that open a call, for the path of any method: they say POST, the scheme, the path and
/// the authority, the type of the content and that trailers are understood, and then what the
/// application gives. Names that are not the application's are refused.
pub proof fn law_calls_open_with_these_fields(
    service: Seq<u8>,
    method: Seq<u8>,
    authority: Seq<u8>,
    list: Seq<FieldView>,
)
    requires
        unbroken(service),
        unbroken(method),
    ensures
        ({
            let path = path_of(service, method);
            let good = forall|i: int| 0 <= i < list.len() ==> free((#[trigger] list[i]).name);
            &&& good ==> headers::request_fields(path, Some(authority), list) == Ok::<
                Seq<FieldView>,
                StatusView,
            >(
                seq![
                    named(":method", "POST"),
                    named(":scheme", "http"),
                    FieldView { name: bytes::text(":path"), value: path },
                    FieldView { name: bytes::text(":authority"), value: authority },
                    named("content-type", "application/grpc+proto"),
                    named("te", "trailers"),
                ] + list,
            )
            &&& good ==> headers::request_fields(path, None, list) == Ok::<
                Seq<FieldView>,
                StatusView,
            >(
                seq![
                    named(":method", "POST"),
                    named(":scheme", "http"),
                    FieldView { name: bytes::text(":path"), value: path },
                    named("content-type", "application/grpc+proto"),
                    named("te", "trailers"),
                ] + list,
            )
            &&& !good ==> headers::request_fields(path, Some(authority), list) == Err::<
                Seq<FieldView>,
                StatusView,
            >(StatusView { code: Code::Internal, message: "reserved metadata name"@ })
        }),
{
    let path = path_of(service, method);
    lemma_path(service, method);
    lemma_all_free(list);
    assert(headers::request_head_fields(path, Some(authority)) =~= seq![
        named(":method", "POST"),
        named(":scheme", "http"),
        FieldView { name: bytes::text(":path"), value: path },
        FieldView { name: bytes::text(":authority"), value: authority },
        named("content-type", "application/grpc+proto"),
        named("te", "trailers"),
    ]);
    assert(headers::request_head_fields(path, None) =~= seq![
        named(":method", "POST"),
        named(":scheme", "http"),
        FieldView { name: bytes::text(":path"), value: path },
        named("content-type", "application/grpc+proto"),
        named("te", "trailers"),
    ]);
}

/// The fields that open an answer, and those that end it: the digits of the code, the text where
/// there is one, and then what the application gives.
pub proof fn law_answers_open_and_end_with_these_fields(s: StatusView, list: Seq<FieldView>)
    requires
        forall|i: int| 0 <= i < list.len() ==> free((#[trigger] list[i]).name),
    ensures
        headers::response_fields(list) == Ok::<Seq<FieldView>, StatusView>(
            seq![named(":status", "200"), named("content-type", "application/grpc+proto")] + list,
        ),
        s.message.len() == 0 ==> headers::trailer_fields(s, list) == Ok::<
            Seq<FieldView>,
            StatusView,
        >(seq![FieldView { name: bytes::text("grpc-status"), value: digits(s.code) }] + list),
        s.message.len() > 0 ==> headers::trailer_fields(s, list) == Ok::<
            Seq<FieldView>,
            StatusView,
        >(
            seq![
                FieldView { name: bytes::text("grpc-status"), value: digits(s.code) },
                FieldView {
                    name: bytes::text("grpc-message"),
                    value: status::encoded(vstd::utf8::encode_utf8(s.message)),
                },
            ] + list,
        ),
{
    lemma_all_free(list);
    lemma_digits(s.code);
    assert(headers::response_head_fields() =~= seq![
        named(":status", "200"),
        named("content-type", "application/grpc+proto"),
    ]);
    if s.message.len() > 0 {
        assert(headers::trailer_head_fields(s) =~= seq![
            FieldView { name: bytes::text("grpc-status"), value: digits(s.code) },
            FieldView {
                name: bytes::text("grpc-message"),
                value: status::encoded(vstd::utf8::encode_utf8(s.message)),
            },
        ]);
    }
}

/// The digits of the number of a code.
pub open spec fn digits(code: Code) -> Seq<u8> {
    match code {
        Code::Okay => seq![0x30u8],
        Code::Cancelled => seq![0x31u8],
        Code::Unknown => seq![0x32u8],
        Code::InvalidArgument => seq![0x33u8],
        Code::DeadlineExceeded => seq![0x34u8],
        Code::NotFound => seq![0x35u8],
        Code::AlreadyExists => seq![0x36u8],
        Code::PermissionDenied => seq![0x37u8],
        Code::ResourceExhausted => seq![0x38u8],
        Code::FailedPrecondition => seq![0x39u8],
        Code::Aborted => seq![0x31u8, 0x30],
        Code::OutOfRange => seq![0x31u8, 0x31],
        Code::Unimplemented => seq![0x31u8, 0x32],
        Code::Internal => seq![0x31u8, 0x33],
        Code::Unavailable => seq![0x31u8, 0x34],
        Code::DataLoss => seq![0x31u8, 0x35],
        Code::Unauthenticated => seq![0x31u8, 0x36],
    }
}

proof fn lemma_digits(code: Code)
    ensures
        digits(code) == status::code_digits(code),
{
    assert(digits(code) =~= status::code_digits(code));
}

/// Every code has its number, and the digits of the number mean the code. An answer that ends
/// without a number, or with one that is no code's, is a failure.
pub proof fn law_codes_have_their_digits(code: Code, other: Seq<u8>, message: Option<Seq<u8>>)
    ensures
        status::code_digits(code) == digits(code),
        status::ended(Some(digits(code)), None) == Ok::<StatusView, StatusView>(
            StatusView { code, message: Seq::empty() },
        ),
        status::ended(None, message) == Err::<StatusView, StatusView>(
            StatusView { code: Code::Internal, message: "missing grpc-status"@ },
        ),
        other.len() == 0 || other.len() > 2 ==> status::ended(Some(other), message) == Err::<
            StatusView,
            StatusView,
        >(StatusView { code: Code::Internal, message: "invalid grpc-status"@ }),
        other.len() == 2 && other[0] == 0x31 && other[1] > 0x36 ==> status::ended(
            Some(other),
            message,
        ) == Err::<StatusView, StatusView>(
            StatusView { code: Code::Internal, message: "invalid grpc-status"@ },
        ),
        other.len() == 1 && !(0x30 <= other[0] <= 0x39) ==> status::ended(Some(other), message)
            == Err::<StatusView, StatusView>(
            StatusView { code: Code::Internal, message: "invalid grpc-status"@ },
        ),
{
    lemma_digits(code);
    status::law_codes_round_trip(code, code);
    let d = digits(code);
    assert(status::writes_code(d, code));
    let chosen = choose|c: Code| #[trigger] status::writes_code(d, c);
    status::law_codes_round_trip(code, chosen);
}

/// The digits to the base of sixteen.
pub open spec fn sixteen() -> Seq<u8> {
    seq![
        0x30u8, 0x31, 0x32, 0x33, 0x34, 0x35, 0x36, 0x37, 0x38, 0x39, 0x41, 0x42, 0x43, 0x44, 0x45,
        0x46,
    ]
}

/// A text is sent byte by byte: one from a space to a tilde that is no percent sign as it is, any
/// other behind a percent sign in two digits to the base of sixteen. It comes back as it was.
pub proof fn law_texts_are_sent_in_print(b: u8, s: Seq<u8>, t: Seq<u8>)
    ensures
        0x20 <= b <= 0x7e && b != 0x25 ==> status::encoded(seq![b]) == seq![b],
        !(0x20 <= b <= 0x7e && b != 0x25) ==> status::encoded(seq![b]) == seq![
            0x25u8,
            sixteen()[b as int / 16],
            sixteen()[b as int % 16],
        ],
        status::encoded(s + t) == status::encoded(s) + status::encoded(t),
        status::decoded(status::encoded(s)) == s,
    decreases t.len(),
{
    assert(seq![b].drop_last() =~= Seq::<u8>::empty());
    assert(status::encoded(seq![b].drop_last()) =~= Seq::<u8>::empty());
    assert(status::encoded(seq![b]) =~= status::encoded_byte(b));
    status::law_texts_round_trip(s);
    if t.len() == 0 {
        assert(s + t =~= s);
        assert(status::encoded(s) + status::encoded(t) =~= status::encoded(s));
    } else {
        assert((s + t).drop_last() =~= s + t.drop_last());
        law_texts_are_sent_in_print(b, s, t.drop_last());
        assert(status::encoded(s + t) =~= status::encoded(s) + status::encoded(t));
    }
}

/// A request that is no call is refused: one that is not POST, that has no path or a bad one, whose
/// content is of another type, or that does not understand trailers.
pub proof fn law_bad_requests_are_refused(list: Seq<FieldView>)
    requires
        !headers::has_bad_name(list),
    ensures
        ({
            let r = headers::request_head(list);
            let method = headers::first_of(list, bytes::text(":method"));
            let path = headers::first_of(list, bytes::text(":path"));
            let kind = headers::first_of(list, bytes::text("content-type"));
            let te = headers::first_of(list, bytes::text("te"));
            &&& method != Some(bytes::text("POST")) ==> r == Err::<RequestHeadView, StatusView>(
                StatusView { code: Code::Unimplemented, message: "gRPC requires POST"@ },
            )
            &&& method == Some(bytes::text("POST")) && path is None ==> r == Err::<
                RequestHeadView,
                StatusView,
            >(StatusView { code: Code::Unimplemented, message: "missing :path"@ })
            &&& method == Some(bytes::text("POST")) && (path matches Some(p)
                && headers::slashes(p) != 2) ==> r == Err::<RequestHeadView, StatusView>(
                StatusView { code: Code::Unimplemented, message: "invalid gRPC path"@ },
            )
            &&& r is Ok ==> (kind == Some(bytes::text("application/grpc")) || (kind matches Some(k)
                && bytes::starts_with(k, bytes::text("application/grpc+"))))
            &&& r is Ok ==> te == Some(bytes::text("trailers"))
            &&& r matches Ok(head) ==> path == Some(head.path)
            &&& method == Some(bytes::text("POST")) && (path matches Some(p) && headers::is_path(p))
                && kind is None ==> r == Err::<RequestHeadView, StatusView>(
                StatusView {
                    code: Code::InvalidArgument,
                    message: "missing application/grpc content-type"@,
                },
            )
            &&& method == Some(bytes::text("POST")) && (path matches Some(p) && headers::is_path(p))
                && kind == Some(bytes::text("application/grpc")) && te != Some(
                bytes::text("trailers"),
            ) ==> r == Err::<RequestHeadView, StatusView>(
                StatusView { code: Code::InvalidArgument, message: "missing te: trailers"@ },
            )
        }),
{
}

/// An answer that is none of this protocol is a failure: one with another status than 200, or whose
/// content is of another type.
pub proof fn law_bad_answers_are_failures(list: Seq<FieldView>)
    requires
        !headers::has_bad_name(list),
    ensures
        ({
            let r = headers::response_head(list);
            let code = headers::first_of(list, bytes::text(":status"));
            let kind = headers::first_of(list, bytes::text("content-type"));
            &&& code != Some(bytes::text("200")) ==> r == Err::<Seq<FieldView>, StatusView>(
                StatusView { code: Code::Unknown, message: "non-200 HTTP/2 response"@ },
            )
            &&& code == Some(bytes::text("200")) && kind is None ==> r == Err::<
                Seq<FieldView>,
                StatusView,
            >(
                StatusView {
                    code: Code::Unknown,
                    message: "missing application/grpc content-type"@,
                },
            )
            &&& code == Some(bytes::text("200")) && kind == Some(bytes::text("application/grpc"))
                ==> r is Ok
        }),
{
}

/// Of several fields with one name the first counts.
pub proof fn law_first_values_count(list: Seq<FieldView>, name: Seq<u8>, i: int)
    requires
        0 <= i <= list.len(),
        i < list.len() ==> list[i].name == name,
        forall|k: int| 0 <= k < i ==> (#[trigger] list[k]).name != name,
    ensures
        i < list.len() ==> headers::first_of(list, name) == Some(list[i].value),
        i == list.len() ==> headers::first_of(list, name) is None,
{
    if i < list.len() {
        laws::lemma_first_at(list, name, i);
    } else {
        laws::lemma_values_none(list, name);
    }
}

/// Which names the application may give: none that is empty, none with an upper-case letter, none
/// that speaks of the connection, and not the ending of binary values alone.
pub proof fn law_names_have_their_faults(name: Seq<u8>, i: int)
    ensures
        name.len() == 0 ==> metadata::name_fault(name) == Some(MetadataError::EmptyName),
        0 <= i < name.len() && 0x41 <= name[i] <= 0x5a ==> metadata::name_fault(name) == Some(
            MetadataError::UppercaseName,
        ),
        metadata::name_fault(bytes::text("connection")) == Some(MetadataError::ConnectionHeader),
        metadata::name_fault(bytes::text("keep-alive")) == Some(MetadataError::ConnectionHeader),
        metadata::name_fault(bytes::text("proxy-connection")) == Some(
            MetadataError::ConnectionHeader,
        ),
        metadata::name_fault(bytes::text("transfer-encoding")) == Some(
            MetadataError::ConnectionHeader,
        ),
        metadata::name_fault(bytes::text("upgrade")) == Some(MetadataError::ConnectionHeader),
        metadata::name_fault(bytes::text("-bin")) == Some(MetadataError::BadBinaryName),
{
    reveal_strlit("connection");
    reveal_strlit("keep-alive");
    reveal_strlit("proxy-connection");
    reveal_strlit("transfer-encoding");
    reveal_strlit("upgrade");
    reveal_strlit("-bin");
    bytes::lemma_text("connection");
    bytes::lemma_text("keep-alive");
    bytes::lemma_text("proxy-connection");
    bytes::lemma_text("transfer-encoding");
    bytes::lemma_text("upgrade");
    bytes::lemma_text("-bin");
    assert(!metadata::has_upper(bytes::text("connection")));
    assert(!metadata::has_upper(bytes::text("keep-alive")));
    assert(!metadata::has_upper(bytes::text("proxy-connection")));
    assert(!metadata::has_upper(bytes::text("transfer-encoding")));
    assert(!metadata::has_upper(bytes::text("upgrade")));
    assert(!metadata::has_upper(bytes::text("-bin")));
    if 0 <= i < name.len() && 0x41 <= name[i] <= 0x5a {
        assert(metadata::has_upper(name));
    }
}

/// What failures of the connection and of messages mean for a call.
pub proof fn law_failures_have_their_codes(
    reason: ErrorCode,
    e: DecoderError,
    p: ParseError,
    flag: u8,
    len: usize,
    max: usize,
)
    ensures
        status::conn_failure(ConnError::StreamGoneAway).code == Code::Unavailable,
        status::conn_failure(ConnError::GoAwayReceived(reason)).code == Code::Unavailable,
        status::conn_failure(ConnError::StreamClosed).code == Code::Unavailable,
        status::conn_failure(ConnError::StreamLimit).code == Code::ResourceExhausted,
        status::conn_failure(ConnError::FlowControl).code == Code::ResourceExhausted,
        status::conn_failure(ConnError::Overload).code == Code::ResourceExhausted,
        status::conn_failure(ConnError::Protocol).code == Code::Internal,
        status::conn_failure(ConnError::BadPreface).code == Code::Internal,
        status::conn_failure(ConnError::FrameSize).code == Code::Internal,
        status::conn_failure(ConnError::Hpack(e)).code == Code::Internal,
        status::conn_failure(ConnError::ParseError(p)).code == Code::Internal,
        status::frame_failure(FrameError::BadCompressionFlag(flag)) == (StatusView {
            code: Code::InvalidArgument,
            message: "bad gRPC compression flag"@,
        }),
        status::frame_failure(FrameError::MessageTooLarge { len, max }) == (StatusView {
            code: Code::ResourceExhausted,
            message: "gRPC message too large"@,
        }),
        status::frame_failure(FrameError::LengthOverflow) == (StatusView {
            code: Code::Internal,
            message: "gRPC message length overflow"@,
        }),
        status::frame_failure(FrameError::Capacity) == (StatusView {
            code: Code::ResourceExhausted,
            message: "gRPC message pool is full"@,
        }),
        status::metadata_failure() == (StatusView {
            code: Code::InvalidArgument,
            message: "invalid metadata name"@,
        }),
{
}

/// A message in the bytes of a stream: a byte that says whether it is compressed, its length in
/// four bytes, and the message. It is read back, and the bytes behind it are left. One that is
/// longer than is taken, or whose first byte is neither, is a failure.
pub proof fn law_messages_have_their_bytes(
    payload: Seq<u8>,
    compressed: bool,
    max: usize,
    flag: u8,
    more: Seq<u8>,
)
    requires
        payload.len() <= u32::MAX,
        flag > 1,
    ensures
        ({
            let first: u8 = if compressed {
                1
            } else {
                0
            };
            let s = seq![first] + answers::word(payload.len() as int) + payload;
            &&& frame::framed(FrameView { compressed, payload }) == s
            &&& payload.len() <= max ==> frame::deframed(frame::fresh(max), s + more, true) == (
                frame::fresh(max),
                more,
                Ok::<Option<FrameView>, FrameError>(Some(FrameView { compressed, payload })),
            )
            &&& payload.len() > max ==> frame::deframed(frame::fresh(max), s + more, true).2
                == Err::<Option<FrameView>, FrameError>(
                FrameError::MessageTooLarge { len: payload.len() as usize, max },
            )
        }),
        frame::deframed(
            frame::fresh(max),
            seq![flag] + answers::word(payload.len() as int) + more,
            true,
        ).2 == Err::<Option<FrameView>, FrameError>(FrameError::BadCompressionFlag(flag)),
{
    reveal(frame::deframed);
    let m = FrameView { compressed, payload };
    let first: u8 = if compressed {
        1
    } else {
        0
    };
    let n = payload.len() as u32;
    answers::lemma_word(n, payload + more);
    let s = seq![first] + answers::word(n as int) + payload;
    assert(frame::framed(m) =~= s);
    let all = s + more;
    let head = all.take(5);
    let none = Seq::<u8>::empty();
    assert(none + head =~= head);
    assert(head[0] == first);
    assert(head.subrange(1, 5) =~= bytes::wire32(n));
    bytes::lemma_wire32(n, head, 1);
    assert(all.skip(5) =~= payload + more);
    assert((payload + more).take(payload.len() as int) =~= payload);
    assert((payload + more).skip(payload.len() as int) =~= more);
    if payload.len() == 0 {
        assert(payload =~= none);
        assert(payload + more =~= more);
    }
    let bad = seq![flag] + answers::word(n as int) + more;
    assert(none + bad.take(5) =~= bad.take(5));
    assert(bad.take(5)[0] == flag);
}

} // verus!
