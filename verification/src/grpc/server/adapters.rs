//! Handlers of messages that a codec reads and writes.

use crate::grpc::codec;
use crate::grpc::codec::Codec;
use crate::grpc::frame;
use crate::grpc::frame::{FrameView, MessageFrame};
use crate::grpc::headers::{RequestHead, RequestHeadView};
use crate::grpc::metadata::Metadata;
use crate::grpc::server::reply;
use crate::grpc::server::reply::{
    Request, Response, ResponseView, StreamMode, StreamReply, StreamRoutes, StreamingRequest,
    StreamingResponse, UnaryRequest, UnaryResponse,
};
use crate::grpc::server::routes::{Handler, Talk};
use crate::grpc::server::service::ServiceHandler;
use crate::grpc::status;
use crate::grpc::status::{Code, Status, StatusView};
use crate::h2::hpack::FieldView;
use crate::h2::stream::StreamId;
use std::marker::PhantomData;
use vstd::prelude::*;

verus! {

pub open spec fn one_message() -> StatusView {
    status::fixed(Code::InvalidArgument, "unary request needs one message")
}

/// An answer with another status.
pub open spec fn with_status(response: ResponseView, s: StatusView) -> ResponseView {
    ResponseView { status: s, ..response }
}

/// Reads the one message of a request.
fn decode_single<C: Codec>(codec: &mut C, request: &Request) -> (r: Result<C::Decode, Status>)
    ensures
        request.messages@.len() != 1 ==> *final(codec) == *old(codec) && (r matches Err(s) && s@
            == one_message()),
        request.messages@.len() == 1 ==> C::decoded(
            *old(codec),
            request.messages@[0].payload,
            *final(codec),
            r,
        ),
{
    let list: &[MessageFrame] = request.messages.iter();
    if list.len() != 1 {
        return Err(Status::new(Code::InvalidArgument, "unary request needs one message"));
    }
    assert(frame::frame_views(list@)[0] == list@[0]@);
    codec.decode(list[0].payload.as_slice())
}

/// What is made of the answer of a handler; `given` is what the codec made of its message.
pub open spec fn unary_answer<T>(
    response: ResponseView,
    r: UnaryResponse<T>,
    given: Result<Seq<u8>, StatusView>,
) -> ResponseView {
    let answer = ResponseView {
        metadata: r.metadata@,
        messages: response.messages,
        trailers: r.trailers@,
        status: r.status@,
    };
    match r.message {
        None => answer,
        Some(_) => match given {
            Ok(payload) => ResponseView { messages: response.messages.push(payload), ..answer },
            Err(failure) => with_status(answer, failure),
        },
    }
}

/// Whether a codec has made `given` of the message of an answer, if there is one.
pub open spec fn encoded_single<C: Codec>(
    before: C,
    message: Option<C::Encode>,
    after: C,
    given: Result<Seq<u8>, StatusView>,
) -> bool {
    match message {
        None => after == before,
        Some(m) => codec::encodes_one::<C>(before, m, after, given),
    }
}

/// Takes the answer of a handler.
fn answer_single<C: Codec>(
    codec: &mut C,
    answer: UnaryResponse<C::Encode>,
    response: &mut Response,
)
    ensures
        exists|given: Result<Seq<u8>, StatusView>| #[trigger]
            encoded_single::<C>(*old(codec), answer.message, *final(codec), given)
                && final(response)@ == unary_answer(old(response)@, answer, given),
{
    let ghost before = response@;
    let ghost held = *codec;
    let ghost whole = answer;
    let UnaryResponse { metadata, message, trailers, status } = answer;
    response.metadata = metadata;
    response.trailers = trailers;
    response.status = status;
    match message {
        None => {
            let ghost given: Result<Seq<u8>, StatusView> = Ok(Seq::empty());
            assert(encoded_single::<C>(held, whole.message, *codec, given));
            assert(response@ =~= unary_answer(before, whole, given));
        },
        Some(message) => {
            let mut payload: Vec<u8> = Vec::new();
            assert(payload@ =~= Seq::<u8>::empty());
            let done = codec.encode(&message, &mut payload);
            let ghost given = reply::made(done, payload@);
            proof {
                assert(C::encoded(held, message, Seq::empty(), *codec, payload@, done));
                assert(encoded_single::<C>(held, whole.message, *codec, given));
            }
            match done {
                Ok(_) => response.push_message(payload),
                Err(failure) => response.status = failure,
            }
            assert(response@ =~= unary_answer(before, whole, given));
        },
    }
}

/// What a codec read of messages, one after the other: `codecs` holds the codec before the
/// first and after each.
pub open spec fn decodes<C: Codec>(
    codecs: Seq<C>,
    messages: Seq<frame::FrameView>,
    items: Seq<Result<C::Decode, Status>>,
) -> bool {
    &&& codecs.len() == items.len() + 1
    &&& items.len() <= messages.len()
    &&& forall|i: int|
        #![trigger codecs[i], items[i]]
        0 <= i < items.len() ==> C::decoded(
            codecs[i],
            messages[i].payload,
            codecs[i + 1],
            items[i],
        )
}

/// What was read of all messages, or the first failure.
pub open spec fn collected<T>(items: Seq<Result<T, Status>>) -> Result<Seq<T>, Status>
    decreases items.len(),
{
    if items.len() == 0 {
        Ok(Seq::empty())
    } else {
        match collected(items.drop_last()) {
            Err(failure) => Err(failure),
            Ok(list) => match items.last() {
                Ok(item) => Ok(list.push(item)),
                Err(failure) => Err(failure),
            },
        }
    }
}

/// Whether a codec has read `items` of messages: of all of them, or of those up to the first
/// failure.
pub open spec fn decoded_all<C: Codec>(
    before: C,
    messages: Seq<frame::FrameView>,
    after: C,
    items: Seq<Result<C::Decode, Status>>,
) -> bool {
    exists|codecs: Seq<C>| #[trigger]
        decodes::<C>(codecs, messages, items) && codecs[0] == before && codecs.last() == after && (
        collected(items) is Ok ==> items.len() == messages.len()) && reply::ends_at_failure(items)
}

/// Reads the messages of a request, up to the first failure.
fn decode_all<C: Codec>(codec: &mut C, request: &Request) -> (r: (
    Result<Vec<C::Decode>, Status>,
    Ghost<Seq<Result<C::Decode, Status>>>,
))
    ensures
        decoded_all::<C>(*old(codec), request.messages@, *final(codec), r.1@),
        match r.0 {
            Ok(list) => collected(r.1@) == Ok::<Seq<C::Decode>, Status>(list@),
            Err(failure) => collected(r.1@) == Err::<Seq<C::Decode>, Status>(failure),
        },
{
    let ghost mut codecs: Seq<C> = seq![*codec];
    let ghost mut items: Seq<Result<C::Decode, Status>> = Seq::empty();
    let list: &[MessageFrame] = request.messages.iter();
    let ghost views = frame::frame_views(list@);
    let mut out: Vec<C::Decode> = Vec::with_capacity(list.len());
    let mut i: usize = 0;
    while i < list.len()
        invariant
            i <= list@.len(),
            views == frame::frame_views(list@),
            views == request.messages@,
            items.len() == i,
            decodes::<C>(codecs, views, items),
            codecs[0] == *old(codec),
            codecs.last() == *codec,
            collected(items) == Ok::<Seq<C::Decode>, Status>(out@),
            forall|k: int| 0 <= k < items.len() ==> (#[trigger] items[k]) is Ok,
        decreases list@.len() - i,
    {
        let ghost held = *codec;
        assert(views[i as int] == list@[i as int]@);
        let item = codec.decode(list[i].payload.as_slice());
        let ghost longer = items.push(item);
        proof {
            let next = codecs.push(*codec);
            assert forall|k: int|
                #![trigger next[k], longer[k]]
                0 <= k < longer.len() implies C::decoded(
                next[k],
                views[k].payload,
                next[k + 1],
                longer[k],
            ) by {
                if k < i {
                    assert(codecs[k] == next[k] && items[k] == longer[k]);
                } else {
                    assert(next[k] == held);
                }
            }
            codecs = next;
            assert(longer.drop_last() =~= items);
            assert(decodes::<C>(codecs, views, longer));
            assert forall|k: int| 0 <= k < longer.len() - 1 implies (#[trigger] longer[k]) is Ok by {
                assert(longer[k] == items[k]);
            }
        }
        match item {
            Ok(item) => out.push(item),
            Err(failure) => return (Err(failure), Ghost(longer)),
        }
        proof {
            items = longer;
        }
        i = i + 1;
    }
    (Ok(out), Ghost(items))
}

/// What is made of the answer of a handler; `given` is what the codec made of its messages, up
/// to the first failure.
pub open spec fn streaming_answer<T>(
    response: ResponseView,
    r: StreamingResponse<T>,
    given: Seq<Result<Seq<u8>, StatusView>>,
) -> ResponseView {
    let answer = ResponseView {
        metadata: r.metadata@,
        messages: response.messages,
        trailers: r.trailers@,
        status: r.status@,
    };
    match reply::collected(given) {
        Ok(list) => ResponseView { messages: response.messages + list, ..answer },
        Err(failure) => ResponseView { messages: Seq::empty(), status: failure, ..answer },
    }
}

/// Takes the answer of a handler.
fn answer_all<C: Codec>(
    codec: &mut C,
    answer: StreamingResponse<C::Encode>,
    response: &mut Response,
)
    ensures
        exists|given: Seq<Result<Seq<u8>, StatusView>>| #[trigger]
            reply::encoded_all::<C>(*old(codec), answer.messages@, *final(codec), given)
                && final(response)@ == streaming_answer(old(response)@, answer, given),
{
    let ghost before = response@;
    let ghost whole = answer;
    let ghost held = *codec;
    let StreamingResponse { metadata, messages, trailers, status } = answer;
    response.metadata = metadata;
    response.trailers = trailers;
    response.status = status;
    let (mut out, failed, given) = reply::encode_all(messages.as_slice(), codec);
    assert(reply::encoded_all::<C>(held, whole.messages@, *codec, given@));
    match failed {
        None => {
            let ghost list = reply::payloads(out@);
            response.messages.append(&mut out);
            assert(response@.messages =~= before.messages + list);
        },
        Some(failure) => {
            response.status = failure;
            response.messages.clear();
            assert(response@.messages =~= Seq::<Seq<u8>>::empty());
        },
    }
    assert(response@ =~= streaming_answer(before, whole, given@));
}

/// Answers a request of one message with at most one message.
pub trait UnaryHandler<C = ()>: Sized {
    type Request;

    type Response;

    type Codec: Codec<Decode = Self::Request, Encode = Self::Response>;

    /// What the handler says of a request that it has answered.
    open spec fn handles(
        before: Self,
        context: C,
        request: UnaryRequest<Self::Request>,
        after: Self,
        left: C,
        r: UnaryResponse<Self::Response>,
    ) -> bool {
        true
    }

    fn unary(&mut self, context: &mut C, request: UnaryRequest<Self::Request>) -> (r:
        UnaryResponse<Self::Response>)
        ensures
            Self::handles(
                *old(self),
                *old(context),
                request,
                *final(self),
                *final(context),
                r,
            ),
    ;
}

/// A handler of requests of one message, with its codec.
pub struct Unary<H: UnaryHandler<C>, C = ()> {
    handler: H,
    codec: H::Codec,
    context: PhantomData<C>,
}

impl<H: UnaryHandler<C>, C> Unary<H, C> {
    pub closed spec fn handler(&self) -> H {
        self.handler
    }

    pub closed spec fn codec(&self) -> H::Codec {
        self.codec
    }

    pub fn new(handler: H, codec: H::Codec) -> (r: Self)
        ensures
            r.handler() == handler,
            r.codec() == codec,
    {
        Unary { handler, codec, context: PhantomData }
    }

    /// What is said of a request with one message that was read.
    pub open spec fn served(
        before: Self,
        context: C,
        request: Request,
        response: Response,
        after: Self,
        left: C,
        given: Response,
        mid: H::Codec,
        message: H::Request,
    ) -> bool {
        exists|r: UnaryResponse<H::Response>, written: Result<Seq<u8>, StatusView>|
            H::handles(
                before.handler(),
                context,
                UnaryRequest {
                    stream_id: request.stream_id,
                    head: request.head,
                    message,
                    trailers: request.trailers,
                },
                after.handler(),
                left,
                r,
            ) && encoded_single::<H::Codec>(mid, r.message, after.codec(), written) && given@
                == #[trigger] unary_answer(response@, r, written)
    }

    /// What is said of a request.
    pub open spec fn answered(
        before: Self,
        context: C,
        request: Request,
        response: Response,
        after: Self,
        left: C,
        given: Response,
    ) -> bool {
        if request.messages@.len() != 1 {
            after == before && left == context && given@ == with_status(response@, one_message())
        } else {
            exists|mid: H::Codec, item: Result<H::Request, Status>|
                #[trigger] <H::Codec as Codec>::decoded(
                    before.codec(),
                    request.messages@[0].payload,
                    mid,
                    item,
                ) && match item {
                    Err(failure) => after.handler() == before.handler() && after.codec() == mid
                        && left == context && given@ == with_status(response@, failure@),
                    Ok(message) => Self::served(
                        before,
                        context,
                        request,
                        response,
                        after,
                        left,
                        given,
                        mid,
                        message,
                    ),
                }
        }
    }
}

impl<H: UnaryHandler<C>, C> Handler<C> for Unary<H, C> {
    /// Requests are answered once they are complete.
    open spec fn starts(
        before: Talk<Self, C>,
        stream: u32,
        head: RequestHeadView,
        after: Talk<Self, C>,
        mode: StreamMode,
    ) -> bool {
        mode == StreamMode::Buffered && after == before
    }

    open spec fn hears(
        before: Talk<Self, C>,
        stream: u32,
        message: FrameView,
        after: Talk<Self, C>,
    ) -> bool {
        after == before
    }

    open spec fn closes(
        before: Talk<Self, C>,
        stream: u32,
        trailers: Seq<FieldView>,
        after: Talk<Self, C>,
    ) -> bool {
        after == before
    }

    open spec fn answers(
        before: Self,
        context: C,
        request: Request,
        response: Response,
        after: Self,
        left: C,
        given: Response,
    ) -> bool {
        Self::answered(before, context, request, response, after, left, given)
    }

    fn start(
        &mut self,
        context: &mut C,
        routes: &mut StreamRoutes,
        stream_id: StreamId,
        head: &RequestHead,
        reply: &mut StreamReply,
    ) -> (r: StreamMode) {
        StreamMode::Buffered
    }

    fn message(
        &mut self,
        context: &mut C,
        routes: &mut StreamRoutes,
        stream_id: StreamId,
        message: MessageFrame,
        reply: &mut StreamReply,
    ) {
    }

    fn trailers(
        &mut self,
        context: &mut C,
        routes: &mut StreamRoutes,
        stream_id: StreamId,
        trailers: Metadata,
        reply: &mut StreamReply,
    ) {
    }

    fn request(&mut self, context: &mut C, request: Request, response: &mut Response) {
        let ghost start = *self;
        let ghost asked = request;
        let ghost had = *response;
        let ghost held = *context;
        let item = decode_single(&mut self.codec, &request);
        let ghost mid = self.codec;
        let ghost read = item;
        proof {
            if asked.messages@.len() == 1 {
                assert(<H::Codec as Codec>::decoded(
                    start.codec(),
                    asked.messages@[0].payload,
                    mid,
                    read,
                ));
            }
        }
        match item {
            Err(failure) => {
                response.status = failure;
                proof {
                    assert(response@ =~= with_status(had@, failure@));
                    if asked.messages@.len() != 1 {
                        assert(*self == start);
                        assert(*context == held);
                    }
                    assert(Self::answered(
                        start,
                        held,
                        asked,
                        had,
                        *self,
                        *context,
                        *response,
                    ));
                }
            },
            Ok(message) => {
                let Request { stream_id, head, messages, trailers } = request;
                let r = self.handler.unary(
                    context,
                    UnaryRequest { stream_id, head, message, trailers },
                );
                answer_single(&mut self.codec, r, response);
                proof {
                    let written = choose|written: Result<Seq<u8>, StatusView>| #[trigger]
                        encoded_single::<H::Codec>(mid, r.message, self.codec, written)
                            && response@ == unary_answer(had@, r, written);
                    assert(response@ == unary_answer(had@, r, written));
                    assert(Self::served(
                        start,
                        held,
                        asked,
                        had,
                        *self,
                        *context,
                        *response,
                        mid,
                        message,
                    ));
                }
            },
        }
    }
}

/// Answers the messages of a request with messages.
pub trait StreamingHandler<C = ()>: Sized {
    type Request;

    type Response;

    type Codec: Codec<Decode = Self::Request, Encode = Self::Response>;

    /// What the handler says of a request that it has answered.
    open spec fn handles(
        before: Self,
        context: C,
        request: StreamingRequest<Self::Request>,
        after: Self,
        left: C,
        r: StreamingResponse<Self::Response>,
    ) -> bool {
        true
    }

    fn stream(&mut self, context: &mut C, request: StreamingRequest<Self::Request>) -> (r:
        StreamingResponse<Self::Response>)
        ensures
            Self::handles(
                *old(self),
                *old(context),
                request,
                *final(self),
                *final(context),
                r,
            ),
    ;
}

/// A handler of requests of any number of messages, with its codec.
pub struct Streaming<H: StreamingHandler<C>, C = ()> {
    handler: H,
    codec: H::Codec,
    context: PhantomData<C>,
}

impl<H: StreamingHandler<C>, C> Streaming<H, C> {
    pub closed spec fn handler(&self) -> H {
        self.handler
    }

    pub closed spec fn codec(&self) -> H::Codec {
        self.codec
    }

    pub fn new(handler: H, codec: H::Codec) -> (r: Self)
        ensures
            r.handler() == handler,
            r.codec() == codec,
    {
        Streaming { handler, codec, context: PhantomData }
    }

    /// What is said of a request whose messages were read.
    pub open spec fn served(
        before: Self,
        context: C,
        request: Request,
        response: Response,
        after: Self,
        left: C,
        given: Response,
        mid: H::Codec,
        list: Seq<H::Request>,
    ) -> bool {
        exists|
            messages: Vec<H::Request>,
            r: StreamingResponse<H::Response>,
            written: Seq<Result<Seq<u8>, StatusView>>,
        |
            messages@ == list && #[trigger] H::handles(
                before.handler(),
                context,
                StreamingRequest {
                    stream_id: request.stream_id,
                    head: request.head,
                    messages,
                    trailers: request.trailers,
                },
                after.handler(),
                left,
                r,
            ) && reply::encoded_all::<H::Codec>(mid, r.messages@, after.codec(), written) && given@
                == #[trigger] streaming_answer(response@, r, written)
    }

    /// What is said of a request.
    pub open spec fn answered(
        before: Self,
        context: C,
        request: Request,
        response: Response,
        after: Self,
        left: C,
        given: Response,
    ) -> bool {
        exists|mid: H::Codec, items: Seq<Result<H::Request, Status>>|
            #[trigger] decoded_all::<H::Codec>(before.codec(), request.messages@, mid, items)
                && match collected(items) {
                Err(failure) => after.handler() == before.handler() && after.codec() == mid
                    && left == context && given@ == with_status(response@, failure@),
                Ok(list) => Self::served(
                    before,
                    context,
                    request,
                    response,
                    after,
                    left,
                    given,
                    mid,
                    list,
                ),
            }
    }
}

impl<H: StreamingHandler<C>, C> Handler<C> for Streaming<H, C> {
    /// Requests are answered once they are complete.
    open spec fn starts(
        before: Talk<Self, C>,
        stream: u32,
        head: RequestHeadView,
        after: Talk<Self, C>,
        mode: StreamMode,
    ) -> bool {
        mode == StreamMode::Buffered && after == before
    }

    open spec fn hears(
        before: Talk<Self, C>,
        stream: u32,
        message: FrameView,
        after: Talk<Self, C>,
    ) -> bool {
        after == before
    }

    open spec fn closes(
        before: Talk<Self, C>,
        stream: u32,
        trailers: Seq<FieldView>,
        after: Talk<Self, C>,
    ) -> bool {
        after == before
    }

    open spec fn answers(
        before: Self,
        context: C,
        request: Request,
        response: Response,
        after: Self,
        left: C,
        given: Response,
    ) -> bool {
        Self::answered(before, context, request, response, after, left, given)
    }

    fn start(
        &mut self,
        context: &mut C,
        routes: &mut StreamRoutes,
        stream_id: StreamId,
        head: &RequestHead,
        reply: &mut StreamReply,
    ) -> (r: StreamMode) {
        StreamMode::Buffered
    }

    fn message(
        &mut self,
        context: &mut C,
        routes: &mut StreamRoutes,
        stream_id: StreamId,
        message: MessageFrame,
        reply: &mut StreamReply,
    ) {
    }

    fn trailers(
        &mut self,
        context: &mut C,
        routes: &mut StreamRoutes,
        stream_id: StreamId,
        trailers: Metadata,
        reply: &mut StreamReply,
    ) {
    }

    fn request(&mut self, context: &mut C, request: Request, response: &mut Response) {
        let ghost start = *self;
        let ghost asked = request;
        let ghost had = *response;
        let ghost held = *context;
        let (read, items) = decode_all(&mut self.codec, &request);
        let ghost mid = self.codec;
        match read {
            Err(failure) => {
                response.status = failure;
                assert(response@ =~= with_status(had@, failure@));
                assert(decoded_all::<H::Codec>(start.codec(), asked.messages@, mid, items@));
            },
            Ok(messages) => {
                let ghost list = messages;
                let Request { stream_id, head, messages: _, trailers } = request;
                let r = self.handler.stream(
                    context,
                    StreamingRequest { stream_id, head, messages, trailers },
                );
                answer_all(&mut self.codec, r, response);
                proof {
                    let written = choose|written: Seq<Result<Seq<u8>, StatusView>>| #[trigger]
                        reply::encoded_all::<H::Codec>(mid, r.messages@, self.codec, written)
                            && response@ == streaming_answer(had@, r, written);
                    assert(response@ == streaming_answer(had@, r, written));
                    assert(H::handles(
                        start.handler(),
                        held,
                        StreamingRequest {
                            stream_id: asked.stream_id,
                            head: asked.head,
                            messages: list,
                            trailers: asked.trailers,
                        },
                        self.handler(),
                        *context,
                        r,
                    ));
                    assert(Self::served(
                        start,
                        held,
                        asked,
                        had,
                        *self,
                        *context,
                        *response,
                        mid,
                        list@,
                    ));
                    assert(decoded_all::<H::Codec>(start.codec(), asked.messages@, mid, items@));
                }
            },
        }
    }
}

/// Answers a request of one message with at most one message, with a service that others share.
pub trait UnaryService<S>: Sized {
    type Request;

    type Response;

    type Codec: Codec<Decode = Self::Request, Encode = Self::Response>;

    /// What the handler says of a request that it has answered.
    open spec fn handles(
        before: Self,
        context: S,
        request: UnaryRequest<Self::Request>,
        after: Self,
        left: S,
        r: UnaryResponse<Self::Response>,
    ) -> bool {
        true
    }

    fn unary(&mut self, context: &mut S, request: UnaryRequest<Self::Request>) -> (r:
        UnaryResponse<Self::Response>)
        ensures
            Self::handles(
                *old(self),
                *old(context),
                request,
                *final(self),
                *final(context),
                r,
            ),
    ;
}

/// A handler of requests of one message that works with a service, with its codec.
pub struct ServiceUnary<S, H: UnaryService<S>> {
    handler: H,
    codec: H::Codec,
    context: PhantomData<S>,
}

impl<S, H: UnaryService<S>> ServiceUnary<S, H> {
    pub closed spec fn handler(&self) -> H {
        self.handler
    }

    pub closed spec fn codec(&self) -> H::Codec {
        self.codec
    }

    pub fn new(handler: H, codec: H::Codec) -> (r: Self)
        ensures
            r.handler() == handler,
            r.codec() == codec,
    {
        ServiceUnary { handler, codec, context: PhantomData }
    }

    /// What is said of a request with one message that was read.
    pub open spec fn served(
        before: Self,
        context: S,
        request: Request,
        response: Response,
        after: Self,
        left: S,
        given: Response,
        mid: H::Codec,
        message: H::Request,
    ) -> bool {
        exists|r: UnaryResponse<H::Response>, written: Result<Seq<u8>, StatusView>|
            H::handles(
                before.handler(),
                context,
                UnaryRequest {
                    stream_id: request.stream_id,
                    head: request.head,
                    message,
                    trailers: request.trailers,
                },
                after.handler(),
                left,
                r,
            ) && encoded_single::<H::Codec>(mid, r.message, after.codec(), written) && given@
                == #[trigger] unary_answer(response@, r, written)
    }

    /// What is said of a request.
    pub open spec fn answered(
        before: Self,
        context: S,
        request: Request,
        response: Response,
        after: Self,
        left: S,
        given: Response,
    ) -> bool {
        if request.messages@.len() != 1 {
            after == before && left == context && given@ == with_status(response@, one_message())
        } else {
            exists|mid: H::Codec, item: Result<H::Request, Status>|
                #[trigger] <H::Codec as Codec>::decoded(
                    before.codec(),
                    request.messages@[0].payload,
                    mid,
                    item,
                ) && match item {
                    Err(failure) => after.handler() == before.handler() && after.codec() == mid
                        && left == context && given@ == with_status(response@, failure@),
                    Ok(message) => Self::served(
                        before,
                        context,
                        request,
                        response,
                        after,
                        left,
                        given,
                        mid,
                        message,
                    ),
                }
        }
    }
}

impl<S, H: UnaryService<S>> ServiceHandler<S> for ServiceUnary<S, H> {
    /// Requests are answered once they are complete.
    open spec fn starts(
        before: Talk<Self, S>,
        stream: u32,
        head: RequestHeadView,
        after: Talk<Self, S>,
        mode: StreamMode,
    ) -> bool {
        mode == StreamMode::Buffered && after == before
    }

    open spec fn hears(
        before: Talk<Self, S>,
        stream: u32,
        message: FrameView,
        after: Talk<Self, S>,
    ) -> bool {
        after == before
    }

    open spec fn closes(
        before: Talk<Self, S>,
        stream: u32,
        trailers: Seq<FieldView>,
        after: Talk<Self, S>,
    ) -> bool {
        after == before
    }

    open spec fn answers(
        before: Self,
        context: S,
        request: Request,
        response: Response,
        after: Self,
        left: S,
        given: Response,
    ) -> bool {
        Self::answered(before, context, request, response, after, left, given)
    }

    fn start(
        &mut self,
        service: &mut S,
        routes: &mut StreamRoutes,
        stream_id: StreamId,
        head: &RequestHead,
        reply: &mut StreamReply,
    ) -> (r: StreamMode) {
        StreamMode::Buffered
    }

    fn message(
        &mut self,
        service: &mut S,
        routes: &mut StreamRoutes,
        stream_id: StreamId,
        message: MessageFrame,
        reply: &mut StreamReply,
    ) {
    }

    fn trailers(
        &mut self,
        service: &mut S,
        routes: &mut StreamRoutes,
        stream_id: StreamId,
        trailers: Metadata,
        reply: &mut StreamReply,
    ) {
    }

    fn request(&mut self, context: &mut S, request: Request, response: &mut Response) {
        let ghost start = *self;
        let ghost asked = request;
        let ghost had = *response;
        let ghost held = *context;
        let item = decode_single(&mut self.codec, &request);
        let ghost mid = self.codec;
        let ghost read = item;
        proof {
            if asked.messages@.len() == 1 {
                assert(<H::Codec as Codec>::decoded(
                    start.codec(),
                    asked.messages@[0].payload,
                    mid,
                    read,
                ));
            }
        }
        match item {
            Err(failure) => {
                response.status = failure;
                proof {
                    assert(response@ =~= with_status(had@, failure@));
                    if asked.messages@.len() != 1 {
                        assert(*self == start);
                        assert(*context == held);
                    }
                    assert(Self::answered(
                        start,
                        held,
                        asked,
                        had,
                        *self,
                        *context,
                        *response,
                    ));
                }
            },
            Ok(message) => {
                let Request { stream_id, head, messages, trailers } = request;
                let r = self.handler.unary(
                    context,
                    UnaryRequest { stream_id, head, message, trailers },
                );
                answer_single(&mut self.codec, r, response);
                proof {
                    let written = choose|written: Result<Seq<u8>, StatusView>| #[trigger]
                        encoded_single::<H::Codec>(mid, r.message, self.codec, written)
                            && response@ == unary_answer(had@, r, written);
                    assert(response@ == unary_answer(had@, r, written));
                    assert(Self::served(
                        start,
                        held,
                        asked,
                        had,
                        *self,
                        *context,
                        *response,
                        mid,
                        message,
                    ));
                }
            },
        }
    }
}

/// Answers the messages of a request with messages, with a service that others share.
pub trait StreamingService<S>: Sized {
    type Request;

    type Response;

    type Codec: Codec<Decode = Self::Request, Encode = Self::Response>;

    /// What the handler says of a request that it has answered.
    open spec fn handles(
        before: Self,
        context: S,
        request: StreamingRequest<Self::Request>,
        after: Self,
        left: S,
        r: StreamingResponse<Self::Response>,
    ) -> bool {
        true
    }

    fn stream(&mut self, context: &mut S, request: StreamingRequest<Self::Request>) -> (r:
        StreamingResponse<Self::Response>)
        ensures
            Self::handles(
                *old(self),
                *old(context),
                request,
                *final(self),
                *final(context),
                r,
            ),
    ;
}

/// A handler of requests of any number of messages that works with a service, with its codec.
pub struct ServiceStreaming<S, H: StreamingService<S>> {
    handler: H,
    codec: H::Codec,
    context: PhantomData<S>,
}

impl<S, H: StreamingService<S>> ServiceStreaming<S, H> {
    pub closed spec fn handler(&self) -> H {
        self.handler
    }

    pub closed spec fn codec(&self) -> H::Codec {
        self.codec
    }

    pub fn new(handler: H, codec: H::Codec) -> (r: Self)
        ensures
            r.handler() == handler,
            r.codec() == codec,
    {
        ServiceStreaming { handler, codec, context: PhantomData }
    }

    /// What is said of a request whose messages were read.
    pub open spec fn served(
        before: Self,
        context: S,
        request: Request,
        response: Response,
        after: Self,
        left: S,
        given: Response,
        mid: H::Codec,
        list: Seq<H::Request>,
    ) -> bool {
        exists|
            messages: Vec<H::Request>,
            r: StreamingResponse<H::Response>,
            written: Seq<Result<Seq<u8>, StatusView>>,
        |
            messages@ == list && #[trigger] H::handles(
                before.handler(),
                context,
                StreamingRequest {
                    stream_id: request.stream_id,
                    head: request.head,
                    messages,
                    trailers: request.trailers,
                },
                after.handler(),
                left,
                r,
            ) && reply::encoded_all::<H::Codec>(mid, r.messages@, after.codec(), written) && given@
                == #[trigger] streaming_answer(response@, r, written)
    }

    /// What is said of a request.
    pub open spec fn answered(
        before: Self,
        context: S,
        request: Request,
        response: Response,
        after: Self,
        left: S,
        given: Response,
    ) -> bool {
        exists|mid: H::Codec, items: Seq<Result<H::Request, Status>>|
            #[trigger] decoded_all::<H::Codec>(before.codec(), request.messages@, mid, items)
                && match collected(items) {
                Err(failure) => after.handler() == before.handler() && after.codec() == mid
                    && left == context && given@ == with_status(response@, failure@),
                Ok(list) => Self::served(
                    before,
                    context,
                    request,
                    response,
                    after,
                    left,
                    given,
                    mid,
                    list,
                ),
            }
    }
}

impl<S, H: StreamingService<S>> ServiceHandler<S> for ServiceStreaming<S, H> {
    /// Requests are answered once they are complete.
    open spec fn starts(
        before: Talk<Self, S>,
        stream: u32,
        head: RequestHeadView,
        after: Talk<Self, S>,
        mode: StreamMode,
    ) -> bool {
        mode == StreamMode::Buffered && after == before
    }

    open spec fn hears(
        before: Talk<Self, S>,
        stream: u32,
        message: FrameView,
        after: Talk<Self, S>,
    ) -> bool {
        after == before
    }

    open spec fn closes(
        before: Talk<Self, S>,
        stream: u32,
        trailers: Seq<FieldView>,
        after: Talk<Self, S>,
    ) -> bool {
        after == before
    }

    open spec fn answers(
        before: Self,
        context: S,
        request: Request,
        response: Response,
        after: Self,
        left: S,
        given: Response,
    ) -> bool {
        Self::answered(before, context, request, response, after, left, given)
    }

    fn start(
        &mut self,
        service: &mut S,
        routes: &mut StreamRoutes,
        stream_id: StreamId,
        head: &RequestHead,
        reply: &mut StreamReply,
    ) -> (r: StreamMode) {
        StreamMode::Buffered
    }

    fn message(
        &mut self,
        service: &mut S,
        routes: &mut StreamRoutes,
        stream_id: StreamId,
        message: MessageFrame,
        reply: &mut StreamReply,
    ) {
    }

    fn trailers(
        &mut self,
        service: &mut S,
        routes: &mut StreamRoutes,
        stream_id: StreamId,
        trailers: Metadata,
        reply: &mut StreamReply,
    ) {
    }

    fn request(&mut self, context: &mut S, request: Request, response: &mut Response) {
        let ghost start = *self;
        let ghost asked = request;
        let ghost had = *response;
        let ghost held = *context;
        let (read, items) = decode_all(&mut self.codec, &request);
        let ghost mid = self.codec;
        match read {
            Err(failure) => {
                response.status = failure;
                assert(response@ =~= with_status(had@, failure@));
                assert(decoded_all::<H::Codec>(start.codec(), asked.messages@, mid, items@));
            },
            Ok(messages) => {
                let ghost list = messages;
                let Request { stream_id, head, messages: _, trailers } = request;
                let r = self.handler.stream(
                    context,
                    StreamingRequest { stream_id, head, messages, trailers },
                );
                answer_all(&mut self.codec, r, response);
                proof {
                    let written = choose|written: Seq<Result<Seq<u8>, StatusView>>| #[trigger]
                        reply::encoded_all::<H::Codec>(mid, r.messages@, self.codec, written)
                            && response@ == streaming_answer(had@, r, written);
                    assert(response@ == streaming_answer(had@, r, written));
                    assert(H::handles(
                        start.handler(),
                        held,
                        StreamingRequest {
                            stream_id: asked.stream_id,
                            head: asked.head,
                            messages: list,
                            trailers: asked.trailers,
                        },
                        self.handler(),
                        *context,
                        r,
                    ));
                    assert(Self::served(
                        start,
                        held,
                        asked,
                        had,
                        *self,
                        *context,
                        *response,
                        mid,
                        list@,
                    ));
                    assert(decoded_all::<H::Codec>(start.codec(), asked.messages@, mid, items@));
                }
            },
        }
    }
}

} // verus!
