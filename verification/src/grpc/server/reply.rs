//! What comes in for a handler, and what a handler answers.

use crate::collections::Table;
use crate::grpc::codec;
use crate::grpc::codec::Codec;
use crate::grpc::frame;
use crate::grpc::frame::{FrameView, MessageFrame};
use crate::grpc::headers::RequestHead;
use crate::grpc::metadata::Metadata;
use crate::grpc::status;
use crate::grpc::status::{Code, Status, StatusView};
use crate::h2::hpack::FieldView;
use crate::h2::stream::StreamId;
use vstd::prelude::*;

verus! {

/// The messages of a request, in order.
pub struct MessageList {
    messages: Vec<MessageFrame>,
}

impl MessageList {
    pub closed spec fn view(&self) -> Seq<FrameView> {
        frame::frame_views(self.messages@)
    }

    pub fn new(messages: Vec<MessageFrame>) -> (r: Self)
        ensures
            r@ == frame::frame_views(messages@),
    {
        MessageList { messages }
    }

    pub fn len(&self) -> (r: usize)
        ensures
            r == self@.len(),
    {
        self.messages.len()
    }

    pub fn is_empty(&self) -> (r: bool)
        ensures
            r == (self@.len() == 0),
    {
        self.messages.len() == 0
    }

    /// The messages, in order.
    pub fn iter(&self) -> (r: &[MessageFrame])
        ensures
            frame::frame_views(r@) == self@,
    {
        self.messages.as_slice()
    }
}

/// A request that is complete.
pub struct Request {
    pub stream_id: StreamId,
    pub head: RequestHead,
    pub messages: MessageList,
    pub trailers: Metadata,
}

pub open spec fn payloads(list: Seq<Vec<u8>>) -> Seq<Seq<u8>> {
    list.map_values(|m: Vec<u8>| m@)
}

/// An answer that is complete.
#[verifier::ext_equal]
pub struct ResponseView {
    pub metadata: Seq<FieldView>,
    pub messages: Seq<Seq<u8>>,
    pub trailers: Seq<FieldView>,
    pub status: StatusView,
}

#[derive(Clone, Debug)]
pub struct Response {
    pub metadata: Metadata,
    pub messages: Vec<Vec<u8>>,
    pub trailers: Metadata,
    pub status: Status,
}

/// An answer with no messages.
pub open spec fn bare(s: StatusView) -> ResponseView {
    ResponseView {
        metadata: Seq::empty(),
        messages: Seq::empty(),
        trailers: Seq::empty(),
        status: s,
    }
}

pub open spec fn okay() -> StatusView {
    StatusView { code: Code::Okay, message: Seq::empty() }
}

/// Messages as the bytes of a stream, up to the first that is too long.
pub open spec fn body(messages: Seq<Seq<u8>>) -> (Seq<u8>, Result<(), StatusView>)
    decreases messages.len(),
{
    if messages.len() == 0 {
        (Seq::empty(), Ok(()))
    } else if messages[0].len() > u32::MAX {
        (Seq::empty(), Err(status::fixed(Code::Internal, "response message too large")))
    } else {
        let (rest, r) = body(messages.drop_first());
        (frame::framed(FrameView { compressed: false, payload: messages[0] }) + rest, r)
    }
}

/// A message that is not compressed.
pub open spec fn plain(payload: Seq<u8>) -> FrameView {
    FrameView { compressed: false, payload }
}

/// What an answer is framed to is what its messages are read from: an answer that gives back
/// the messages of a request is framed to the bytes of the request.
pub proof fn law_bodies_are_framed(messages: Seq<Seq<u8>>)
    requires
        forall|i: int| 0 <= i < messages.len() ==> (#[trigger] messages[i]).len() <= u32::MAX,
    ensures
        body(messages) == (
            frame::all_framed(messages.map_values(|m: Seq<u8>| plain(m))),
            Ok::<(), StatusView>(()),
        ),
    decreases messages.len(),
{
    let all = messages.map_values(|m: Seq<u8>| plain(m));
    if messages.len() > 0 {
        let rest = messages.drop_first();
        assert forall|i: int| 0 <= i < rest.len() implies (#[trigger] rest[i]).len()
            <= u32::MAX by {
            assert(rest[i] == messages[i + 1]);
        }
        law_bodies_are_framed(rest);
        assert(all.drop_first() =~= rest.map_values(|m: Seq<u8>| plain(m)));
        assert(all[0] == plain(messages[0]));
    }
}

impl Response {
    pub open spec fn view(&self) -> ResponseView {
        ResponseView {
            metadata: self.metadata@,
            messages: payloads(self.messages@),
            trailers: self.trailers@,
            status: self.status@,
        }
    }

    pub fn new() -> (r: Self)
        ensures
            r@ == bare(okay()),
    {
        Response::with_status(Status::ok())
    }

    pub fn with_status(status: Status) -> (r: Self)
        ensures
            r@ == bare(status@),
    {
        let r = Response {
            metadata: Metadata::new(),
            messages: Vec::new(),
            trailers: Metadata::new(),
            status,
        };
        assert(r@.messages =~= Seq::<Seq<u8>>::empty());
        r
    }

    pub fn push_message(&mut self, payload: Vec<u8>)
        ensures
            final(self)@ == (ResponseView {
                messages: old(self)@.messages.push(payload@),
                ..old(self)@
            }),
    {
        let ghost before = self@;
        self.messages.push(payload);
        assert(self@.messages =~= before.messages.push(payload@));
    }

    /// Writes the messages as the bytes of a stream.
    pub fn encode_body(&self, out: &mut Vec<u8>) -> (r: Result<(), Status>)
        ensures
            final(out)@ == old(out)@ + body(self@.messages).0,
            match r {
                Ok(_) => body(self@.messages).1 is Ok,
                Err(failure) => body(self@.messages).1 == Err::<(), StatusView>(failure@),
            },
    {
        let ghost before = out@;
        let ghost all = self@.messages;
        let mut i: usize = 0;
        assert(all.skip(0) =~= all);
        while i < self.messages.len()
            invariant
                i <= self.messages@.len(),
                all == self@.messages,
                all.len() == self.messages@.len(),
                before == old(out)@,
                out@ + body(all.skip(i as int)).0 == before + body(all).0,
                body(all.skip(i as int)).1 == body(all).1,
            decreases self.messages@.len() - i,
        {
            let message: &Vec<u8> = &self.messages[i];
            let ghost rest = all.skip(i as int);
            let ghost at = out@;
            assert(rest[0] == message@);
            assert(rest.drop_first() =~= all.skip(i + 1));
            match MessageFrame::encode(false, message.as_slice(), out) {
                Ok(_) => {
                    assert(out@ + body(all.skip(i + 1)).0 =~= at + body(rest).0);
                },
                Err(_) => {
                    assert(out@ =~= before + body(all).0);
                    return Err(Status::new(Code::Internal, "response message too large"));
                },
            }
            i = i + 1;
        }
        assert(out@ =~= before + body(all).0);
        Ok(())
    }
}

impl Default for Response {
    fn default() -> (r: Self)
        ensures
            r@ == bare(okay()),
    {
        Response::new()
    }
}

/// Which route a stream that is served as it comes belongs to.
pub struct StreamRoutes {
    map: Table<usize>,
}

/// Routes by stream.
#[verifier::ext_equal]
pub struct RoutesView {
    pub routes: Map<u32, usize>,
    pub capacity: nat,
}

impl RoutesView {
    /// Whether there is room for a stream.
    pub open spec fn has_room(self, id: u32) -> bool {
        !self.routes.contains_key(id) && self.routes.len() < self.capacity
    }
}

impl StreamRoutes {
    pub closed spec fn view(&self) -> RoutesView {
        RoutesView { routes: self.map.entries(), capacity: self.map.limit() }
    }

    pub fn with_capacity(capacity: usize) -> (r: Self)
        requires
            capacity <= u32::MAX,
        ensures
            r@ == (RoutesView { routes: Map::empty(), capacity: capacity as nat }),
    {
        StreamRoutes { map: Table::with_capacity(capacity) }
    }

    /// Whether there is room for a stream.
    pub(crate) fn has_room(&self, stream_id: StreamId) -> (r: bool)
        ensures
            r == self@.has_room(stream_id.value()),
    {
        self.map.get(stream_id.as_u32()).is_none() && self.map.len() < self.map.capacity()
    }

    pub(crate) fn bind(&mut self, stream_id: StreamId, route: usize)
        requires
            old(self)@.has_room(stream_id.value()),
        ensures
            final(self)@ == (RoutesView {
                routes: old(self)@.routes.insert(stream_id.value(), route),
                ..old(self)@
            }),
    {
        let _ = self.map.try_insert(stream_id.as_u32(), route);
    }

    pub(crate) fn route(&self, stream_id: StreamId) -> (r: Option<usize>)
        ensures
            r == (if self@.routes.contains_key(stream_id.value()) {
                Some(self@.routes[stream_id.value()])
            } else {
                None
            }),
    {
        match self.map.get(stream_id.as_u32()) {
            Some(route) => Some(*route),
            None => None,
        }
    }

    pub(crate) fn release(&mut self, stream_id: StreamId) -> (r: Option<usize>)
        ensures
            r == (if old(self)@.routes.contains_key(stream_id.value()) {
                Some(old(self)@.routes[stream_id.value()])
            } else {
                None
            }),
            final(self)@ == (RoutesView {
                routes: old(self)@.routes.remove(stream_id.value()),
                ..old(self)@
            }),
    {
        self.map.remove(stream_id.as_u32())
    }
}

impl Default for StreamRoutes {
    fn default() -> (r: Self)
        ensures
            r@ == (RoutesView { routes: Map::empty(), capacity: 256 }),
    {
        StreamRoutes::with_capacity(256)
    }
}

/// How a request is served: when it is complete, or as it comes.
#[derive(Copy, Clone, Debug, PartialEq, Eq, Structural)]
pub enum StreamMode {
    Buffered,
    Live,
}

/// A piece of an answer.
#[verifier::ext_equal]
pub struct ReplyView {
    pub metadata: Seq<FieldView>,
    pub messages: Seq<Seq<u8>>,
    pub trailers: Seq<FieldView>,
    pub status: Option<StatusView>,
}

#[derive(Clone, Debug)]
pub struct StreamReply {
    pub metadata: Metadata,
    pub messages: Vec<Vec<u8>>,
    pub trailers: Metadata,
    pub status: Option<Status>,
}

pub open spec fn status_view(s: Option<Status>) -> Option<StatusView> {
    match s {
        Some(s) => Some(s@),
        None => None,
    }
}

/// A piece that says nothing but perhaps how the call has ended.
pub open spec fn silent(s: Option<StatusView>) -> ReplyView {
    ReplyView {
        metadata: Seq::empty(),
        messages: Seq::empty(),
        trailers: Seq::empty(),
        status: s,
    }
}

/// What was made of all messages, or the first failure.
pub open spec fn collected(given: Seq<Result<Seq<u8>, StatusView>>) -> Result<
    Seq<Seq<u8>>,
    StatusView,
>
    decreases given.len(),
{
    if given.len() == 0 {
        Ok(Seq::empty())
    } else {
        match collected(given.drop_last()) {
            Err(failure) => Err(failure),
            Ok(list) => match given.last() {
                Ok(payload) => Ok(list.push(payload)),
                Err(failure) => Err(failure),
            },
        }
    }
}

/// A piece with what a handler said of a live stream; `given` is what a codec made of its
/// messages, up to the first failure.
pub open spec fn applied<T>(
    reply: ReplyView,
    response: LiveResponse<T>,
    given: Seq<Result<Seq<u8>, StatusView>>,
) -> ReplyView {
    match collected(given) {
        Ok(list) => ReplyView {
            metadata: response.metadata@,
            messages: reply.messages + list,
            trailers: response.trailers@,
            status: status_view(response.status),
        },
        Err(failure) => ReplyView {
            metadata: response.metadata@,
            messages: Seq::empty(),
            trailers: response.trailers@,
            status: Some(failure),
        },
    }
}

/// Whether nothing follows a failure.
pub open spec fn ends_at_failure<T, E>(given: Seq<Result<T, E>>) -> bool {
    forall|i: int| 0 <= i < given.len() - 1 ==> (#[trigger] given[i]) is Ok
}

/// Whether a codec has made `given` of messages: of all of them, or of those up to the first
/// failure.
pub open spec fn encoded_all<C: Codec>(
    before: C,
    messages: Seq<C::Encode>,
    after: C,
    given: Seq<Result<Seq<u8>, StatusView>>,
) -> bool {
    exists|codecs: Seq<C>| #[trigger]
        codec::encodes::<C>(codecs, messages, given) && codecs[0] == before && codecs.last()
            == after && (collected(given) is Ok ==> given.len() == messages.len())
            && ends_at_failure(given)
}

/// Encodes messages, up to the first failure.
pub(crate) fn encode_all<C: Codec>(messages: &[C::Encode], codec: &mut C) -> (r: (
    Vec<Vec<u8>>,
    Option<Status>,
    Ghost<Seq<Result<Seq<u8>, StatusView>>>,
))
    ensures
        encoded_all::<C>(*old(codec), messages@, *final(codec), r.2@),
        match r.1 {
            None => collected(r.2@) == Ok::<Seq<Seq<u8>>, StatusView>(payloads(r.0@)),
            Some(failure) => collected(r.2@) == Err::<Seq<Seq<u8>>, StatusView>(failure@),
        },
{
    let ghost mut codecs: Seq<C> = seq![*codec];
    let ghost mut given: Seq<Result<Seq<u8>, StatusView>> = Seq::empty();
    let mut out: Vec<Vec<u8>> = Vec::new();
    let mut i: usize = 0;
    assert(payloads(out@) =~= Seq::<Seq<u8>>::empty());
    while i < messages.len()
        invariant
            i <= messages@.len(),
            given.len() == i,
            codec::encodes::<C>(codecs, messages@, given),
            codecs[0] == *old(codec),
            codecs.last() == *codec,
            collected(given) == Ok::<Seq<Seq<u8>>, StatusView>(payloads(out@)),
            forall|k: int| 0 <= k < given.len() ==> (#[trigger] given[k]) is Ok,
        decreases messages@.len() - i,
    {
        let ghost held = *codec;
        let mut payload: Vec<u8> = Vec::new();
        assert(payload@ =~= Seq::<u8>::empty());
        let done = codec.encode(&messages[i], &mut payload);
        let ghost gave: Result<Seq<u8>, StatusView> = made(done, payload@);
        let ghost longer = given.push(gave);
        proof {
            assert(C::encoded(
                held,
                messages@[i as int],
                Seq::empty(),
                *codec,
                payload@,
                done,
            ));
            let next = codecs.push(*codec);
            assert forall|k: int| 0 <= k < longer.len() implies #[trigger] codec::encodes_one::<C>(
                next[k],
                messages@[k],
                next[k + 1],
                longer[k],
            ) by {
                if k < i {
                    assert(codec::encodes_one::<C>(
                        codecs[k],
                        messages@[k],
                        codecs[k + 1],
                        given[k],
                    ));
                } else {
                    assert(next[k] == held);
                }
            }
            codecs = next;
            assert(longer.drop_last() =~= given);
            assert(codec::encodes::<C>(codecs, messages@, longer));
            assert forall|k: int| 0 <= k < longer.len() - 1 implies (#[trigger] longer[k]) is Ok by {
                assert(longer[k] == given[k]);
            }
        }
        match done {
            Ok(_) => {
                let ghost had = payloads(out@);
                out.push(payload);
                assert(payloads(out@) =~= had.push(payload@));
            },
            Err(failure) => return (out, Some(failure), Ghost(longer)),
        }
        proof {
            given = longer;
        }
        i = i + 1;
    }
    (out, None, Ghost(given))
}

/// What came of a message.
pub open spec fn made(r: Result<(), Status>, written: Seq<u8>) -> Result<Seq<u8>, StatusView> {
    match r {
        Ok(_) => Ok(written),
        Err(failure) => Err(failure@),
    }
}

impl StreamReply {
    pub open spec fn view(&self) -> ReplyView {
        ReplyView {
            metadata: self.metadata@,
            messages: payloads(self.messages@),
            trailers: self.trailers@,
            status: status_view(self.status),
        }
    }

    pub fn new() -> (r: Self)
        ensures
            r@ == silent(None),
    {
        let r = StreamReply {
            metadata: Metadata::new(),
            messages: Vec::new(),
            trailers: Metadata::new(),
            status: None,
        };
        assert(r@.messages =~= Seq::<Seq<u8>>::empty());
        r
    }

    pub fn finish(status: Status) -> (r: Self)
        ensures
            r@ == silent(Some(status@)),
    {
        let mut r = StreamReply::new();
        r.status = Some(status);
        r
    }

    pub fn push_message(&mut self, payload: Vec<u8>)
        ensures
            final(self)@ == (ReplyView {
                messages: old(self)@.messages.push(payload@),
                ..old(self)@
            }),
    {
        let ghost before = self@;
        self.messages.push(payload);
        assert(self@.messages =~= before.messages.push(payload@));
    }

    pub fn finish_with(&mut self, status: Status)
        ensures
            final(self)@ == (ReplyView { status: Some(status@), ..old(self)@ }),
    {
        self.status = Some(status);
    }

    /// Takes what a handler said of a live stream.
    pub fn apply_live<C: Codec>(&mut self, response: LiveResponse<C::Encode>, codec: &mut C)
        ensures
            exists|given: Seq<Result<Seq<u8>, StatusView>>| #[trigger]
                encoded_all::<C>(*old(codec), response.messages@, *final(codec), given)
                    && final(self)@ == applied(old(self)@, response, given),
    {
        let ghost before = self@;
        let ghost whole = response;
        let ghost held = *codec;
        let LiveResponse { metadata, messages, trailers, status } = response;
        self.metadata = metadata;
        self.trailers = trailers;
        self.status = status;
        let (mut out, failed, given) = encode_all(messages.as_slice(), codec);
        proof {
            assert(encoded_all::<C>(held, whole.messages@, *codec, given@));
        }
        match failed {
            None => {
                let ghost list = payloads(out@);
                let ghost had = self.messages@;
                self.messages.append(&mut out);
                assert(self@.messages =~= before.messages + list);
            },
            Some(failure) => {
                self.messages.clear();
                assert(self@.messages =~= Seq::<Seq<u8>>::empty());
                self.finish_with(failure);
            },
        }
        assert(self@ =~= applied(before, whole, given@));
    }
}

impl Default for StreamReply {
    fn default() -> (r: Self)
        ensures
            r@ == silent(None),
    {
        StreamReply::new()
    }
}

#[derive(Clone, Debug)]
pub struct UnaryRequest<T> {
    pub stream_id: StreamId,
    pub head: RequestHead,
    pub message: T,
    pub trailers: Metadata,
}

#[derive(Clone, Debug)]
pub struct UnaryResponse<T> {
    pub metadata: Metadata,
    pub message: Option<T>,
    pub trailers: Metadata,
    pub status: Status,
}

impl<T> UnaryResponse<T> {
    pub fn new(message: T) -> (r: Self)
        ensures
            r.metadata@ == Seq::<FieldView>::empty(),
            r.message == Some(message),
            r.trailers@ == Seq::<FieldView>::empty(),
            r.status@ == okay(),
    {
        UnaryResponse {
            metadata: Metadata::new(),
            message: Some(message),
            trailers: Metadata::new(),
            status: Status::ok(),
        }
    }

    pub fn empty(status: Status) -> (r: Self)
        ensures
            r.metadata@ == Seq::<FieldView>::empty(),
            r.message is None,
            r.trailers@ == Seq::<FieldView>::empty(),
            r.status == status,
    {
        UnaryResponse {
            metadata: Metadata::new(),
            message: None,
            trailers: Metadata::new(),
            status,
        }
    }
}

#[derive(Clone, Debug)]
pub struct StreamingRequest<T> {
    pub stream_id: StreamId,
    pub head: RequestHead,
    pub messages: Vec<T>,
    pub trailers: Metadata,
}

#[derive(Clone, Debug)]
pub struct StreamingResponse<T> {
    pub metadata: Metadata,
    pub messages: Vec<T>,
    pub trailers: Metadata,
    pub status: Status,
}

impl<T> StreamingResponse<T> {
    pub fn new(messages: Vec<T>) -> (r: Self)
        ensures
            r.metadata@ == Seq::<FieldView>::empty(),
            r.messages == messages,
            r.trailers@ == Seq::<FieldView>::empty(),
            r.status@ == okay(),
    {
        StreamingResponse {
            metadata: Metadata::new(),
            messages,
            trailers: Metadata::new(),
            status: Status::ok(),
        }
    }

    pub fn empty(status: Status) -> (r: Self)
        ensures
            r.metadata@ == Seq::<FieldView>::empty(),
            r.messages@.len() == 0,
            r.trailers@ == Seq::<FieldView>::empty(),
            r.status == status,
    {
        StreamingResponse {
            metadata: Metadata::new(),
            messages: Vec::new(),
            trailers: Metadata::new(),
            status,
        }
    }
}

#[derive(Clone, Debug)]
pub struct LiveMessage<T> {
    pub stream_id: StreamId,
    pub message: T,
}

#[derive(Clone, Debug)]
pub struct LiveTrailers {
    pub stream_id: StreamId,
    pub trailers: Metadata,
}

#[derive(Clone, Debug)]
pub struct LiveResponse<T> {
    pub metadata: Metadata,
    pub messages: Vec<T>,
    pub trailers: Metadata,
    pub status: Option<Status>,
}

impl<T> LiveResponse<T> {
    /// Whether nothing is said but perhaps how the call has ended.
    pub open spec fn is_silent(&self, s: Option<StatusView>) -> bool {
        &&& self.metadata@ == Seq::<FieldView>::empty()
        &&& self.trailers@ == Seq::<FieldView>::empty()
        &&& status_view(self.status) == s
    }

    pub fn new() -> (r: Self)
        ensures
            r.is_silent(None),
            r.messages@ == Seq::<T>::empty(),
    {
        LiveResponse {
            metadata: Metadata::new(),
            messages: Vec::new(),
            trailers: Metadata::new(),
            status: None,
        }
    }

    pub fn message(message: T) -> (r: Self)
        ensures
            r.is_silent(None),
            r.messages@ == seq![message],
    {
        let mut r = LiveResponse::new();
        r.messages.push(message);
        assert(r.messages@ =~= seq![message]);
        r
    }

    pub fn finish(status: Status) -> (r: Self)
        ensures
            r.is_silent(Some(status@)),
            r.messages@ == Seq::<T>::empty(),
    {
        let mut r = LiveResponse::new();
        r.status = Some(status);
        r
    }

    pub fn push_message(&mut self, message: T)
        ensures
            final(self).messages@ == old(self).messages@.push(message),
            final(self).metadata == old(self).metadata,
            final(self).trailers == old(self).trailers,
            final(self).status == old(self).status,
    {
        self.messages.push(message);
    }

    pub fn finish_with(&mut self, status: Status)
        ensures
            *final(self) == (LiveResponse { status: Some(status), ..*old(self) }),
    {
        self.status = Some(status);
    }
}

impl<T> Default for LiveResponse<T> {
    fn default() -> (r: Self)
        ensures
            r.is_silent(None),
            r.messages@ == Seq::<T>::empty(),
    {
        LiveResponse::new()
    }
}

} // verus!
