//! The header fields of a call.

use crate::bytes;
use crate::bytes::{equal, has_prefix, text_bytes, to_vec};
use crate::grpc::metadata;
use crate::grpc::metadata::{Metadata, MetadataEntry};
use crate::grpc::status;
use crate::grpc::status::{Code, Status, StatusView};
use crate::h2::hpack;
use crate::h2::hpack::{FieldView, Header, OwnedHeader};
use vstd::prelude::*;

verus! {

/// The first value under a name.
pub open spec fn first_of(list: Seq<FieldView>, name: Seq<u8>) -> Option<Seq<u8>> {
    let all = metadata::values_of(list, name);
    if all.len() > 0 {
        Some(all[0])
    } else {
        None
    }
}

/// Whether a field is one that the application gave.
pub open spec fn is_extra(name: Seq<u8>) -> bool {
    !bytes::starts_with(name, bytes::text(":")) && !metadata::is_reserved(name)
}

/// The fields that the application gave.
pub open spec fn extras(list: Seq<FieldView>) -> Seq<FieldView>
    decreases list.len(),
{
    if list.len() == 0 {
        Seq::empty()
    } else {
        let before = extras(list.drop_last());
        if is_extra(list.last().name) {
            before.push(list.last())
        } else {
            before
        }
    }
}

/// Whether a name that the application gave is not one that it may give.
pub open spec fn has_bad_name(list: Seq<FieldView>) -> bool {
    exists|i: int|
        0 <= i < list.len() && is_extra((#[trigger] list[i]).name) && metadata::name_fault(
            list[i].name,
        ) is Some
}

/// Header fields, sorted by what they are for.
pub struct ParsedView {
    pub method: Option<Seq<u8>>,
    pub path: Option<Seq<u8>>,
    pub authority: Option<Seq<u8>>,
    pub status: Option<Seq<u8>>,
    pub content_type: Option<Seq<u8>>,
    pub te: Option<Seq<u8>>,
    pub grpc_status: Option<Seq<u8>>,
    pub grpc_message: Option<Seq<u8>>,
    pub metadata: Seq<FieldView>,
}

pub open spec fn sorted(list: Seq<FieldView>) -> ParsedView {
    ParsedView {
        method: first_of(list, bytes::text(":method")),
        path: first_of(list, bytes::text(":path")),
        authority: first_of(list, bytes::text(":authority")),
        status: first_of(list, bytes::text(":status")),
        content_type: first_of(list, bytes::text("content-type")),
        te: first_of(list, bytes::text("te")),
        grpc_status: first_of(list, bytes::text("grpc-status")),
        grpc_message: first_of(list, bytes::text("grpc-message")),
        metadata: extras(list),
    }
}

pub open spec fn parsed(list: Seq<FieldView>) -> Result<ParsedView, StatusView> {
    if has_bad_name(list) {
        Err(status::metadata_failure())
    } else {
        Ok(sorted(list))
    }
}

/// A value that may be missing.
pub open spec fn value_view(v: Option<&[u8]>) -> Option<Seq<u8>> {
    match v {
        Some(bytes) => Some(bytes@),
        None => None,
    }
}

/// Header fields, sorted by what they are for: of each that the protocol knows the first value,
/// and of the rest those that it does not reserve.
pub struct ParsedFields<'a> {
    pub method: Option<&'a [u8]>,
    pub path: Option<&'a [u8]>,
    pub authority: Option<&'a [u8]>,
    pub status: Option<&'a [u8]>,
    pub content_type: Option<&'a [u8]>,
    pub te: Option<&'a [u8]>,
    pub grpc_status: Option<&'a [u8]>,
    pub grpc_message: Option<&'a [u8]>,
    pub metadata: Metadata,
}

proof fn lemma_first_push(list: Seq<FieldView>, f: FieldView, name: Seq<u8>)
    ensures
        first_of(list.push(f), name) == (if first_of(list, name) is Some {
            first_of(list, name)
        } else if f.name == name {
            Some(f.value)
        } else {
            None
        }),
{
    metadata::law_duplicates_are_kept(list, f, name);
}

/// The value to keep after one more field.
fn keep<'a>(
    had: Option<&'a [u8]>,
    field: &'a OwnedHeader,
    name: &'static str,
    Ghost(list): Ghost<Seq<FieldView>>,
) -> (r: Option<&'a [u8]>)
    requires
        value_view(had) == first_of(list, bytes::text(name)),
    ensures
        value_view(r) == first_of(list.push(field@), bytes::text(name)),
{
    proof {
        lemma_first_push(list, field@, bytes::text(name));
    }
    match had {
        Some(value) => Some(value),
        None => if equal(field.name.as_slice(), text_bytes(name)) {
            Some(field.value.as_slice())
        } else {
            None
        },
    }
}

impl<'a> ParsedFields<'a> {
    pub open spec fn view(&self) -> ParsedView {
        ParsedView {
            method: value_view(self.method),
            path: value_view(self.path),
            authority: value_view(self.authority),
            status: value_view(self.status),
            content_type: value_view(self.content_type),
            te: value_view(self.te),
            grpc_status: value_view(self.grpc_status),
            grpc_message: value_view(self.grpc_message),
            metadata: self.metadata@,
        }
    }

    pub fn parse(fields: &'a [OwnedHeader]) -> (r: Result<ParsedFields<'a>, Status>)
        ensures
            match r {
                Ok(p) => parsed(hpack::fields(fields@)) == Ok::<ParsedView, StatusView>(p@),
                Err(status) => parsed(hpack::fields(fields@)) == Err::<ParsedView, StatusView>(
                    status@,
                ),
            },
    {
        let ghost list = hpack::fields(fields@);
        let mut out = ParsedFields {
            method: None,
            path: None,
            authority: None,
            status: None,
            content_type: None,
            te: None,
            grpc_status: None,
            grpc_message: None,
            metadata: Metadata::new(),
        };
        let mut i: usize = 0;
        assert(list.subrange(0, 0) =~= Seq::<FieldView>::empty());
        while i < fields.len()
            invariant
                i <= fields@.len(),
                list == hpack::fields(fields@),
                out@ == sorted(list.subrange(0, i as int)),
                !has_bad_name(list.subrange(0, i as int)),
            decreases fields@.len() - i,
        {
            let field: &'a OwnedHeader = &fields[i];
            let ghost had = list.subrange(0, i as int);
            let ghost more = list.subrange(0, i + 1);
            proof {
                assert(field@ == list[i as int]);
                assert(more =~= had.push(field@));
                assert(more.drop_last() =~= had);
            }
            out.method = keep(out.method, field, ":method", Ghost(had));
            out.path = keep(out.path, field, ":path", Ghost(had));
            out.authority = keep(out.authority, field, ":authority", Ghost(had));
            out.status = keep(out.status, field, ":status", Ghost(had));
            out.content_type = keep(out.content_type, field, "content-type", Ghost(had));
            out.te = keep(out.te, field, "te", Ghost(had));
            out.grpc_status = keep(out.grpc_status, field, "grpc-status", Ghost(had));
            out.grpc_message = keep(out.grpc_message, field, "grpc-message", Ghost(had));
            let name: &[u8] = field.name.as_slice();
            if !has_prefix(name, text_bytes(":")) && !Metadata::is_reserved(name) {
                match out.metadata.push(name, field.value.as_slice()) {
                    Ok(_) => {},
                    Err(error) => {
                        assert(is_extra(list[i as int].name));
                        return Err(Status::from_metadata_err(error));
                    },
                }
            }
            assert(!has_bad_name(more)) by {
                assert forall|k: int|
                    0 <= k < more.len() && is_extra((#[trigger] more[k]).name) implies
                    metadata::name_fault(more[k].name) is None by {
                    if k < i {
                        assert(more[k] == had[k]);
                    }
                }
            }
            i = i + 1;
        }
        assert(list.subrange(0, list.len() as int) =~= list);
        Ok(out)
    }
}

/// Whether a content type is one of this protocol.
pub open spec fn is_grpc_type(value: Seq<u8>) -> bool {
    value == bytes::text("application/grpc") || bytes::starts_with(
        value,
        bytes::text("application/grpc+"),
    )
}

/// The number of slashes.
pub open spec fn slashes(path: Seq<u8>) -> nat
    decreases path.len(),
{
    if path.len() == 0 {
        0
    } else {
        slashes(path.drop_last()) + (if path.last() == 0x2f {
            1nat
        } else {
            0nat
        })
    }
}

/// Whether a path names a service and a method.
pub open spec fn is_path(path: Seq<u8>) -> bool {
    bytes::starts_with(path, bytes::text("/")) && slashes(path) == 2
}

pub open spec fn field(name: &str, value: Seq<u8>) -> FieldView {
    FieldView { name: bytes::text(name), value }
}

/// Whether the application gave only names that it may give.
pub open spec fn all_extra(list: Seq<FieldView>) -> bool {
    forall|i: int| 0 <= i < list.len() ==> is_extra((#[trigger] list[i]).name)
}

/// Fields of the protocol followed by those of the application.
pub open spec fn with_metadata(head: Seq<FieldView>, metadata: Seq<FieldView>) -> Result<
    Seq<FieldView>,
    StatusView,
> {
    if all_extra(metadata) {
        Ok(head + metadata)
    } else {
        Err(status::fixed(Code::Internal, "reserved metadata name"))
    }
}

pub open spec fn request_head_fields(path: Seq<u8>, authority: Option<Seq<u8>>) -> Seq<FieldView> {
    let start = seq![
        field(":method", bytes::text("POST")),
        field(":scheme", bytes::text("http")),
        field(":path", path),
    ];
    let named = match authority {
        Some(a) => start.push(field(":authority", a)),
        None => start,
    };
    named.push(field("content-type", bytes::text("application/grpc+proto"))).push(
        field("te", bytes::text("trailers")),
    )
}

/// The fields that open a call.
pub open spec fn request_fields(
    path: Seq<u8>,
    authority: Option<Seq<u8>>,
    metadata: Seq<FieldView>,
) -> Result<Seq<FieldView>, StatusView> {
    if !is_path(path) {
        Err(status::fixed(Code::Unimplemented, "invalid gRPC path"))
    } else {
        with_metadata(request_head_fields(path, authority), metadata)
    }
}

pub open spec fn response_head_fields() -> Seq<FieldView> {
    seq![
        field(":status", bytes::text("200")),
        field("content-type", bytes::text("application/grpc+proto")),
    ]
}

/// The fields that open an answer.
pub open spec fn response_fields(metadata: Seq<FieldView>) -> Result<Seq<FieldView>, StatusView> {
    with_metadata(response_head_fields(), metadata)
}

pub open spec fn trailer_head_fields(s: StatusView) -> Seq<FieldView> {
    let start = seq![field("grpc-status", status::code_digits(s.code))];
    if s.message.len() == 0 {
        start
    } else {
        start.push(
            field("grpc-message", status::encoded(vstd::utf8::encode_utf8(s.message))),
        )
    }
}

/// The fields that end an answer.
pub open spec fn trailer_fields(s: StatusView, metadata: Seq<FieldView>) -> Result<
    Seq<FieldView>,
    StatusView,
> {
    with_metadata(trailer_head_fields(s), metadata)
}

/// A list of header fields.
#[derive(Clone, Debug, PartialEq, Eq)]
pub struct HeaderBlock {
    fields: Vec<OwnedHeader>,
}

impl HeaderBlock {
    pub closed spec fn view(&self) -> Seq<FieldView> {
        hpack::fields(self.fields@)
    }

    pub fn new() -> (r: Self)
        ensures
            r@ == Seq::<FieldView>::empty(),
    {
        let r = HeaderBlock { fields: Vec::new() };
        assert(r@ =~= Seq::<FieldView>::empty());
        r
    }

    pub fn push(&mut self, name: &[u8], value: &[u8])
        ensures
            final(self)@ == old(self)@.push(FieldView { name: name@, value: value@ }),
    {
        let ghost before = self@;
        self.fields.push(OwnedHeader::new(name, value));
        assert(self@ =~= before.push(FieldView { name: name@, value: value@ }));
    }

    /// The fields, in order.
    pub fn iter(&self) -> (r: &[OwnedHeader])
        ensures
            hpack::fields(r@) == self@,
    {
        self.fields.as_slice()
    }

    /// The fields for a connection to send.
    pub fn as_h2(&self) -> (r: Vec<Header<'_>>)
        ensures
            crate::h2::hpack::encoder::header_views(r@) == self@,
    {
        hpack::borrowed(self.fields.as_slice())
    }

    pub fn is_grpc_content_type(value: &[u8]) -> (r: bool)
        ensures
            r == is_grpc_type(value@),
    {
        equal(value, text_bytes("application/grpc")) || has_prefix(
            value,
            text_bytes("application/grpc+"),
        )
    }

    fn push_text(&mut self, name: &'static str, value: &'static str)
        ensures
            final(self)@ == old(self)@.push(field(name, bytes::text(value))),
    {
        self.push(text_bytes(name), text_bytes(value));
    }

    /// The fields that open a call.
    pub fn for_request(path: &[u8], authority: Option<&[u8]>, metadata: &Metadata) -> (r: Result<
        HeaderBlock,
        Status,
    >)
        ensures
            match r {
                Ok(block) => request_fields(path@, value_view(authority), metadata@) == Ok::<
                    Seq<FieldView>,
                    StatusView,
                >(block@),
                Err(status) => request_fields(path@, value_view(authority), metadata@) == Err::<
                    Seq<FieldView>,
                    StatusView,
                >(status@),
            },
    {
        match RequestHead::validate_path(path) {
            Ok(_) => {},
            Err(status) => return Err(status),
        }
        let mut out = HeaderBlock::new();
        out.push_text(":method", "POST");
        out.push_text(":scheme", "http");
        out.push(text_bytes(":path"), path);
        assert(out@ =~= seq![
            field(":method", bytes::text("POST")),
            field(":scheme", bytes::text("http")),
            field(":path", path@),
        ]);
        if let Some(authority) = authority {
            out.push(text_bytes(":authority"), authority);
        }
        out.push_text("content-type", "application/grpc+proto");
        out.push_text("te", "trailers");
        assert(out@ =~= request_head_fields(path@, value_view(authority)));
        match out.push_metadata(metadata) {
            Ok(_) => Ok(out),
            Err(status) => Err(status),
        }
    }

    /// The fields that open an answer.
    pub fn for_response(metadata: &Metadata) -> (r: Result<HeaderBlock, Status>)
        ensures
            match r {
                Ok(block) => response_fields(metadata@) == Ok::<Seq<FieldView>, StatusView>(
                    block@,
                ),
                Err(status) => response_fields(metadata@) == Err::<Seq<FieldView>, StatusView>(
                    status@,
                ),
            },
    {
        let mut out = HeaderBlock::new();
        out.push_text(":status", "200");
        out.push_text("content-type", "application/grpc+proto");
        assert(out@ =~= response_head_fields());
        match out.push_metadata(metadata) {
            Ok(_) => Ok(out),
            Err(status) => Err(status),
        }
    }

    /// The fields that end an answer.
    pub fn for_trailers(status: &Status, metadata: &Metadata) -> (r: Result<HeaderBlock, Status>)
        ensures
            match r {
                Ok(block) => trailer_fields(status@, metadata@) == Ok::<Seq<FieldView>, StatusView>(
                    block@,
                ),
                Err(failure) => trailer_fields(status@, metadata@) == Err::<
                    Seq<FieldView>,
                    StatusView,
                >(failure@),
            },
    {
        let mut out = HeaderBlock::new();
        let mut code: Vec<u8> = Vec::new();
        status.write_grpc_status_value(&mut code);
        assert(code@ =~= status::code_digits(status@.code));
        out.push(text_bytes("grpc-status"), code.as_slice());
        assert(out@ =~= seq![field("grpc-status", status::code_digits(status@.code))]);
        let message: &str = status.message();
        proof {
            lemma_empty_text(status@.message);
        }
        if message.as_bytes().len() > 0 {
            let mut text: Vec<u8> = Vec::new();
            Status::encode_message(message, &mut text);
            assert(text@ =~= status::encoded(vstd::utf8::encode_utf8(status@.message)));
            out.push(text_bytes("grpc-message"), text.as_slice());
        }
        assert(out@ =~= trailer_head_fields(status@));
        match out.push_metadata(metadata) {
            Ok(_) => Ok(out),
            Err(failure) => Err(failure),
        }
    }

    fn push_metadata(&mut self, metadata: &Metadata) -> (r: Result<(), Status>)
        ensures
            match r {
                Ok(_) => with_metadata(old(self)@, metadata@) == Ok::<Seq<FieldView>, StatusView>(
                    final(self)@,
                ),
                Err(status) => with_metadata(old(self)@, metadata@) == Err::<
                    Seq<FieldView>,
                    StatusView,
                >(status@),
            },
    {
        let ghost head = self@;
        let entries: &[MetadataEntry] = metadata.entries();
        let ghost list = metadata@;
        let mut i: usize = 0;
        assert(self@ =~= head + list.subrange(0, 0));
        while i < entries.len()
            invariant
                i <= entries@.len(),
                entries@.len() == list.len(),
                list == metadata@,
                forall|k: int| 0 <= k < entries@.len() ==> (#[trigger] entries@[k])@ == list[k],
                self@ == head + list.subrange(0, i as int),
                forall|k: int| 0 <= k < i ==> is_extra((#[trigger] list[k]).name),
            decreases entries@.len() - i,
        {
            let entry: &MetadataEntry = &entries[i];
            assert(entry@ == list[i as int]);
            let name: &[u8] = entry.name.as_slice();
            if has_prefix(name, text_bytes(":")) || Metadata::is_reserved(name) {
                return Err(Status::new(Code::Internal, "reserved metadata name"));
            }
            self.push(name, entry.value.as_slice());
            assert(self@ =~= head + list.subrange(0, i + 1));
            i = i + 1;
        }
        assert(list.subrange(0, list.len() as int) =~= list);
        Ok(())
    }
}

impl Default for HeaderBlock {
    fn default() -> (r: Self)
        ensures
            r@ == Seq::<FieldView>::empty(),
    {
        HeaderBlock::new()
    }
}

/// What opens a call.
pub struct RequestHeadView {
    pub path: Seq<u8>,
    pub authority: Option<Seq<u8>>,
    pub metadata: Seq<FieldView>,
}

pub open spec fn request_head(list: Seq<FieldView>) -> Result<RequestHeadView, StatusView> {
    match parsed(list) {
        Err(status) => Err(status),
        Ok(p) => if p.method != Some(bytes::text("POST")) {
            Err(status::fixed(Code::Unimplemented, "gRPC requires POST"))
        } else if p.path is None {
            Err(status::fixed(Code::Unimplemented, "missing :path"))
        } else if !is_path(p.path->0) {
            Err(status::fixed(Code::Unimplemented, "invalid gRPC path"))
        } else if !(p.content_type is Some && is_grpc_type(p.content_type->0)) {
            Err(status::fixed(Code::InvalidArgument, "missing application/grpc content-type"))
        } else if p.te != Some(bytes::text("trailers")) {
            Err(status::fixed(Code::InvalidArgument, "missing te: trailers"))
        } else {
            Ok(
                RequestHeadView {
                    path: p.path->0,
                    authority: p.authority,
                    metadata: p.metadata,
                },
            )
        },
    }
}

/// The fields of the application at the end of a request.
pub open spec fn request_trailers(list: Seq<FieldView>) -> Result<Seq<FieldView>, StatusView> {
    match parsed(list) {
        Err(status) => Err(status),
        Ok(p) => Ok(p.metadata),
    }
}

/// Whether a value is the given text.
fn is_text(value: Option<&[u8]>, text: &'static str) -> (r: bool)
    ensures
        r == (value_view(value) == Some(bytes::text(text))),
{
    match value {
        Some(bytes) => equal(bytes, text_bytes(text)),
        None => false,
    }
}

#[derive(Clone, Debug, PartialEq, Eq)]
pub struct RequestHead {
    pub path: Vec<u8>,
    pub authority: Option<Vec<u8>>,
    pub metadata: Metadata,
}

impl RequestHead {
    pub open spec fn view(&self) -> RequestHeadView {
        RequestHeadView {
            path: self.path@,
            authority: match self.authority {
                Some(a) => Some(a@),
                None => None,
            },
            metadata: self.metadata@,
        }
    }

    pub fn parse_h2(fields: &[OwnedHeader]) -> (r: Result<RequestHead, Status>)
        ensures
            match r {
                Ok(head) => request_head(hpack::fields(fields@)) == Ok::<
                    RequestHeadView,
                    StatusView,
                >(head@),
                Err(status) => request_head(hpack::fields(fields@)) == Err::<
                    RequestHeadView,
                    StatusView,
                >(status@),
            },
    {
        let p: ParsedFields = match ParsedFields::parse(fields) {
            Ok(p) => p,
            Err(status) => return Err(status),
        };
        if !is_text(p.method, "POST") {
            return Err(Status::new(Code::Unimplemented, "gRPC requires POST"));
        }
        let path: &[u8] = match p.path {
            Some(path) => path,
            None => return Err(Status::new(Code::Unimplemented, "missing :path")),
        };
        match RequestHead::validate_path(path) {
            Ok(_) => {},
            Err(status) => return Err(status),
        }
        let typed: bool = match p.content_type {
            Some(value) => HeaderBlock::is_grpc_content_type(value),
            None => false,
        };
        if !typed {
            return Err(
                Status::new(Code::InvalidArgument, "missing application/grpc content-type"),
            );
        }
        if !is_text(p.te, "trailers") {
            return Err(Status::new(Code::InvalidArgument, "missing te: trailers"));
        }
        let authority: Option<Vec<u8>> = match p.authority {
            Some(authority) => Some(to_vec(authority)),
            None => None,
        };
        Ok(RequestHead { path: to_vec(path), authority, metadata: p.metadata })
    }

    pub fn parse_h2_trailers(fields: &[OwnedHeader]) -> (r: Result<Metadata, Status>)
        ensures
            match r {
                Ok(metadata) => request_trailers(hpack::fields(fields@)) == Ok::<
                    Seq<FieldView>,
                    StatusView,
                >(metadata@),
                Err(status) => request_trailers(hpack::fields(fields@)) == Err::<
                    Seq<FieldView>,
                    StatusView,
                >(status@),
            },
    {
        match ParsedFields::parse(fields) {
            Ok(p) => Ok(p.metadata),
            Err(status) => Err(status),
        }
    }

    fn validate_path(path: &[u8]) -> (r: Result<(), Status>)
        ensures
            match r {
                Ok(_) => is_path(path@),
                Err(status) => !is_path(path@) && status@ == status::fixed(
                    Code::Unimplemented,
                    "invalid gRPC path",
                ),
            },
    {
        let mut count: usize = 0;
        let mut i: usize = 0;
        assert(path@.subrange(0, 0) =~= Seq::<u8>::empty());
        while i < path.len()
            invariant
                i <= path@.len(),
                count <= i,
                count == slashes(path@.subrange(0, i as int)),
            decreases path@.len() - i,
        {
            assert(path@.subrange(0, i + 1).drop_last() =~= path@.subrange(0, i as int));
            if path[i] == 0x2f {
                count = count + 1;
            }
            i = i + 1;
        }
        assert(path@.subrange(0, path@.len() as int) =~= path@);
        if !has_prefix(path, text_bytes("/")) || count != 2 {
            return Err(Status::new(Code::Unimplemented, "invalid gRPC path"));
        }
        Ok(())
    }
}

/// What opens an answer.
pub open spec fn response_head(list: Seq<FieldView>) -> Result<Seq<FieldView>, StatusView> {
    match parsed(list) {
        Err(status) => Err(status),
        Ok(p) => if p.status != Some(bytes::text("200")) {
            Err(status::fixed(Code::Unknown, "non-200 HTTP/2 response"))
        } else if !(p.content_type is Some && is_grpc_type(p.content_type->0)) {
            Err(status::fixed(Code::Unknown, "missing application/grpc content-type"))
        } else {
            Ok(p.metadata)
        },
    }
}

#[derive(Clone, Debug, PartialEq, Eq)]
pub struct ResponseHead {
    pub metadata: Metadata,
}

impl ResponseHead {
    pub fn parse_h2(fields: &[OwnedHeader]) -> (r: Result<ResponseHead, Status>)
        ensures
            match r {
                Ok(head) => response_head(hpack::fields(fields@)) == Ok::<
                    Seq<FieldView>,
                    StatusView,
                >(head.metadata@),
                Err(status) => response_head(hpack::fields(fields@)) == Err::<
                    Seq<FieldView>,
                    StatusView,
                >(status@),
            },
    {
        let p: ParsedFields = match ParsedFields::parse(fields) {
            Ok(p) => p,
            Err(status) => return Err(status),
        };
        if !is_text(p.status, "200") {
            return Err(Status::new(Code::Unknown, "non-200 HTTP/2 response"));
        }
        let typed: bool = match p.content_type {
            Some(value) => HeaderBlock::is_grpc_content_type(value),
            None => false,
        };
        if !typed {
            return Err(Status::new(Code::Unknown, "missing application/grpc content-type"));
        }
        Ok(ResponseHead { metadata: p.metadata })
    }
}

/// How a call has ended, and the fields of the application that came with it.
pub open spec fn response_trailers(list: Seq<FieldView>) -> Result<
    (StatusView, Seq<FieldView>),
    StatusView,
> {
    match parsed(list) {
        Err(status) => Err(status),
        Ok(p) => match status::ended(p.grpc_status, p.grpc_message) {
            Ok(s) => Ok((s, p.metadata)),
            Err(failure) => Err(failure),
        },
    }
}

impl Status {
    /// How a call has ended, and the fields of the application that came with it.
    pub fn parse_h2_trailers(fields: &[OwnedHeader]) -> (r: Result<(Status, Metadata), Status>)
        ensures
            match r {
                Ok((status, metadata)) => response_trailers(hpack::fields(fields@)) == Ok::<
                    (StatusView, Seq<FieldView>),
                    StatusView,
                >((status@, metadata@)),
                Err(failure) => response_trailers(hpack::fields(fields@)) == Err::<
                    (StatusView, Seq<FieldView>),
                    StatusView,
                >(failure@),
            },
    {
        let p: ParsedFields = match ParsedFields::parse(fields) {
            Ok(p) => p,
            Err(status) => return Err(status),
        };
        match Status::from_values(p.grpc_status, p.grpc_message) {
            Ok(status) => Ok((status, p.metadata)),
            Err(failure) => Err(failure),
        }
    }
}

proof fn lemma_empty_text(s: Seq<char>)
    ensures
        (vstd::utf8::encode_utf8(s).len() == 0) == (s.len() == 0),
{
    vstd::utf8::encode_utf8_decode_utf8(s);
    if s.len() == 0 {
        assert(s =~= Seq::<char>::empty());
    }
    if vstd::utf8::encode_utf8(s).len() == 0 {
        let none = Seq::<char>::empty();
        vstd::utf8::encode_utf8_decode_utf8(none);
        assert(vstd::utf8::encode_utf8(s) =~= Seq::<u8>::empty());
        assert(vstd::utf8::encode_utf8(none).len() == 0);
        assert(vstd::utf8::encode_utf8(none) =~= Seq::<u8>::empty());
    }
}

} // verus!
