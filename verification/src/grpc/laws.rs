//! What the fields of a call carry from one side to the other.

use crate::bytes;
use crate::grpc::headers;
use crate::grpc::headers::RequestHeadView;
use crate::grpc::metadata;
use crate::grpc::status;
use crate::grpc::status::StatusView;
use crate::h2::hpack::FieldView;
use vstd::prelude::*;

verus! {

/// Whether all names are such that metadata can hold them.
pub open spec fn names_are_good(list: Seq<FieldView>) -> bool {
    forall|i: int|
        0 <= i < list.len() ==> metadata::name_fault((#[trigger] list[i]).name) is None
}

pub proof fn lemma_values_none(list: Seq<FieldView>, name: Seq<u8>)
    requires
        forall|i: int| 0 <= i < list.len() ==> (#[trigger] list[i]).name != name,
    ensures
        metadata::values_of(list, name).len() == 0,
        headers::first_of(list, name) is None,
    decreases list.len(),
{
    if list.len() > 0 {
        lemma_values_none(list.drop_last(), name);
    }
}

pub proof fn lemma_first_at(list: Seq<FieldView>, name: Seq<u8>, i: int)
    requires
        0 <= i < list.len(),
        list[i].name == name,
        forall|k: int| 0 <= k < i ==> (#[trigger] list[k]).name != name,
    ensures
        metadata::values_of(list, name).len() > 0,
        headers::first_of(list, name) == Some(list[i].value),
    decreases list.len(),
{
    if i == list.len() - 1 {
        lemma_values_none(list.drop_last(), name);
    } else {
        assert(list.drop_last()[i] == list[i]);
        lemma_first_at(list.drop_last(), name, i);
    }
}

proof fn lemma_extras(head: Seq<FieldView>, list: Seq<FieldView>)
    requires
        forall|i: int| 0 <= i < head.len() ==> !headers::is_extra((#[trigger] head[i]).name),
        headers::all_extra(list),
    ensures
        headers::extras(head + list) == list,
    decreases head.len() + list.len(),
{
    let all = head + list;
    if list.len() > 0 {
        let rest = list.drop_last();
        assert(all.drop_last() =~= head + rest);
        assert(headers::all_extra(rest)) by {
            assert forall|i: int| 0 <= i < rest.len() implies headers::is_extra(
                (#[trigger] rest[i]).name,
            ) by {
                assert(rest[i] == list[i]);
            }
        }
        lemma_extras(head, rest);
        assert(all.last() == list.last());
        assert(headers::is_extra(list[list.len() - 1].name));
        assert(rest.push(list.last()) =~= list);
    } else if head.len() > 0 {
        let rest = head.drop_last();
        assert(all =~= head);
        assert(all.drop_last() =~= rest + list);
        lemma_extras(rest, list);
        assert(all.last() == head[head.len() - 1]);
    } else {
        assert(all =~= Seq::<FieldView>::empty());
        assert(list =~= Seq::<FieldView>::empty());
    }
}

/// The names that the protocol uses differ, and are not for the application.
proof fn lemma_names()
    ensures
        !headers::is_extra(bytes::text(":method")),
        !headers::is_extra(bytes::text(":scheme")),
        !headers::is_extra(bytes::text(":path")),
        !headers::is_extra(bytes::text(":authority")),
        !headers::is_extra(bytes::text(":status")),
        !headers::is_extra(bytes::text("content-type")),
        !headers::is_extra(bytes::text("te")),
        !headers::is_extra(bytes::text("grpc-status")),
        !headers::is_extra(bytes::text("grpc-message")),
        bytes::text(":method") != bytes::text(":scheme"),
        bytes::text(":method") != bytes::text(":path"),
        bytes::text(":method") != bytes::text(":authority"),
        bytes::text(":method") != bytes::text(":status"),
        bytes::text(":method") != bytes::text("content-type"),
        bytes::text(":method") != bytes::text("te"),
        bytes::text(":method") != bytes::text("grpc-status"),
        bytes::text(":method") != bytes::text("grpc-message"),
        bytes::text(":scheme") != bytes::text(":path"),
        bytes::text(":scheme") != bytes::text(":authority"),
        bytes::text(":scheme") != bytes::text(":status"),
        bytes::text(":scheme") != bytes::text("content-type"),
        bytes::text(":scheme") != bytes::text("te"),
        bytes::text(":scheme") != bytes::text("grpc-status"),
        bytes::text(":scheme") != bytes::text("grpc-message"),
        bytes::text(":path") != bytes::text(":authority"),
        bytes::text(":path") != bytes::text(":status"),
        bytes::text(":path") != bytes::text("content-type"),
        bytes::text(":path") != bytes::text("te"),
        bytes::text(":path") != bytes::text("grpc-status"),
        bytes::text(":path") != bytes::text("grpc-message"),
        bytes::text(":authority") != bytes::text(":status"),
        bytes::text(":authority") != bytes::text("content-type"),
        bytes::text(":authority") != bytes::text("te"),
        bytes::text(":authority") != bytes::text("grpc-status"),
        bytes::text(":authority") != bytes::text("grpc-message"),
        bytes::text(":status") != bytes::text("content-type"),
        bytes::text(":status") != bytes::text("te"),
        bytes::text(":status") != bytes::text("grpc-status"),
        bytes::text(":status") != bytes::text("grpc-message"),
        bytes::text("content-type") != bytes::text("te"),
        bytes::text("content-type") != bytes::text("grpc-status"),
        bytes::text("content-type") != bytes::text("grpc-message"),
        bytes::text("te") != bytes::text("grpc-status"),
        bytes::text("te") != bytes::text("grpc-message"),
        bytes::text("grpc-status") != bytes::text("grpc-message"),
{
    reveal_strlit(":method");
    reveal_strlit(":scheme");
    reveal_strlit(":path");
    reveal_strlit(":authority");
    reveal_strlit(":status");
    reveal_strlit("content-type");
    reveal_strlit("te");
    reveal_strlit("grpc-status");
    reveal_strlit("grpc-message");
    reveal_strlit(":");
    reveal_strlit("grpc-");
    bytes::lemma_text(":method");
    bytes::lemma_text(":scheme");
    bytes::lemma_text(":path");
    bytes::lemma_text(":authority");
    bytes::lemma_text(":status");
    bytes::lemma_text("content-type");
    bytes::lemma_text("te");
    bytes::lemma_text("grpc-status");
    bytes::lemma_text("grpc-message");
    bytes::lemma_text(":");
    bytes::lemma_text("grpc-");
    assert(bytes::text(":method").subrange(0, 1) =~= bytes::text(":"));
    assert(bytes::text(":scheme").subrange(0, 1) =~= bytes::text(":"));
    assert(bytes::text(":path").subrange(0, 1) =~= bytes::text(":"));
    assert(bytes::text(":authority").subrange(0, 1) =~= bytes::text(":"));
    assert(bytes::text(":status").subrange(0, 1) =~= bytes::text(":"));
    assert(bytes::text("grpc-status").subrange(0, 5) =~= bytes::text("grpc-"));
    assert(bytes::text("grpc-message").subrange(0, 5) =~= bytes::text("grpc-"));
    assert(bytes::text(":method")[1] != bytes::text(":scheme")[1]);
    assert(bytes::text(":method")[1] != bytes::text(":status")[1]);
    assert(bytes::text(":scheme")[2] != bytes::text(":status")[2]);
    assert(bytes::text("content-type")[0] != bytes::text("grpc-message")[0]);
}

proof fn lemma_parsed(head: Seq<FieldView>, list: Seq<FieldView>)
    requires
        forall|i: int| 0 <= i < head.len() ==> !headers::is_extra((#[trigger] head[i]).name),
        headers::all_extra(list),
        names_are_good(list),
    ensures
        !headers::has_bad_name(head + list),
        headers::extras(head + list) == list,
{
    lemma_extras(head, list);
    let all = head + list;
    assert forall|i: int|
        0 <= i < all.len() && headers::is_extra((#[trigger] all[i]).name) implies
        metadata::name_fault(all[i].name) is None by {
        if i < head.len() {
            assert(all[i] == head[i]);
        } else {
            assert(all[i] == list[i - head.len()]);
        }
    }
}

/// What a client says when it opens a call, the server reads: the path, the authority and the
/// fields of the application, with their order and their repetitions.
pub proof fn law_requests_are_read_back(
    path: Seq<u8>,
    authority: Option<Seq<u8>>,
    list: Seq<FieldView>,
)
    requires
        names_are_good(list),
        headers::request_fields(path, authority, list) is Ok,
    ensures
        headers::request_head(headers::request_fields(path, authority, list)->Ok_0) == Ok::<
            RequestHeadView,
            StatusView,
        >(RequestHeadView { path, authority, metadata: list }),
{
    lemma_names();
    let head = headers::request_head_fields(path, authority);
    let all = head + list;
    assert(forall|i: int| 0 <= i < head.len() ==> all[i] == head[i]);
    lemma_parsed(head, list);
    lemma_first_at(all, bytes::text(":method"), 0);
    lemma_first_at(all, bytes::text(":path"), 2);
    if authority is Some {
        lemma_first_at(all, bytes::text(":authority"), 3);
        lemma_first_at(all, bytes::text("content-type"), 4);
        lemma_first_at(all, bytes::text("te"), 5);
    } else {
        assert forall|i: int| 0 <= i < all.len() implies (#[trigger] all[i]).name != bytes::text(
            ":authority",
        ) by {
            if i >= head.len() {
                assert(all[i] == list[i - head.len()]);
            }
        }
        lemma_values_none(all, bytes::text(":authority"));
        lemma_first_at(all, bytes::text("content-type"), 3);
        lemma_first_at(all, bytes::text("te"), 4);
    }
    lemma_proto_type();
}

/// The content type that both sides send is one that both sides accept.
proof fn lemma_proto_type()
    ensures
        headers::is_grpc_type(bytes::text("application/grpc+proto")),
{
    reveal_strlit("application/grpc+proto");
    reveal_strlit("application/grpc+");
    bytes::lemma_text("application/grpc+proto");
    bytes::lemma_text("application/grpc+");
    assert(bytes::text("application/grpc+proto").subrange(0, 17) =~= bytes::text(
        "application/grpc+",
    ));
}

/// What a server says when it opens an answer, the client reads.
pub proof fn law_responses_are_read_back(list: Seq<FieldView>)
    requires
        names_are_good(list),
        headers::response_fields(list) is Ok,
    ensures
        headers::response_head(headers::response_fields(list)->Ok_0) == Ok::<
            Seq<FieldView>,
            StatusView,
        >(list),
{
    lemma_names();
    let head = headers::response_head_fields();
    let all = head + list;
    assert(forall|i: int| 0 <= i < head.len() ==> all[i] == head[i]);
    lemma_parsed(head, list);
    lemma_first_at(all, bytes::text(":status"), 0);
    lemma_first_at(all, bytes::text("content-type"), 1);
    lemma_proto_type();
}

/// How a server says that a call has ended, the client reads: the code, the text and the fields
/// of the application.
pub proof fn law_endings_are_read_back(s: StatusView, list: Seq<FieldView>)
    requires
        names_are_good(list),
        headers::trailer_fields(s, list) is Ok,
    ensures
        headers::response_trailers(headers::trailer_fields(s, list)->Ok_0) == Ok::<
            (StatusView, Seq<FieldView>),
            StatusView,
        >((s, list)),
{
    lemma_names();
    let head = headers::trailer_head_fields(s);
    let all = head + list;
    assert(forall|i: int| 0 <= i < head.len() ==> all[i] == head[i]);
    lemma_parsed(head, list);
    lemma_first_at(all, bytes::text("grpc-status"), 0);
    let digits = status::code_digits(s.code);
    status::law_codes_round_trip(s.code, s.code);
    assert(status::writes_code(digits, s.code));
    let chosen = choose|c: status::Code| #[trigger] status::writes_code(digits, c);
    status::law_codes_round_trip(s.code, chosen);
    if s.message.len() == 0 {
        assert forall|i: int| 0 <= i < all.len() implies (#[trigger] all[i]).name != bytes::text(
            "grpc-message",
        ) by {
            if i >= head.len() {
                assert(all[i] == list[i - head.len()]);
            }
        }
        lemma_values_none(all, bytes::text("grpc-message"));
        assert(s.message =~= Seq::empty());
    } else {
        lemma_first_at(all, bytes::text("grpc-message"), 1);
        status::law_texts_round_trip(vstd::utf8::encode_utf8(s.message));
        vstd::utf8::encode_utf8_valid_utf8(s.message);
        vstd::utf8::encode_utf8_decode_utf8(s.message);
    }
}

/// The first failure of a call is told: a request whose path does not name a service and a
/// method is refused on both sides with the same status.
pub proof fn law_bad_paths_are_refused(
    path: Seq<u8>,
    authority: Option<Seq<u8>>,
    list: Seq<FieldView>,
)
    requires
        !headers::is_path(path),
        names_are_good(list),
        headers::all_extra(list),
    ensures
        headers::request_fields(path, authority, list) == Err::<Seq<FieldView>, StatusView>(
            status::fixed(status::Code::Unimplemented, "invalid gRPC path"),
        ),
        headers::request_head(headers::request_head_fields(path, authority) + list) == Err::<
            RequestHeadView,
            StatusView,
        >(status::fixed(status::Code::Unimplemented, "invalid gRPC path")),
{
    lemma_names();
    let head = headers::request_head_fields(path, authority);
    let all = head + list;
    assert(forall|i: int| 0 <= i < head.len() ==> all[i] == head[i]);
    lemma_parsed(head, list);
    lemma_first_at(all, bytes::text(":method"), 0);
    lemma_first_at(all, bytes::text(":path"), 2);
}

} // verus!
