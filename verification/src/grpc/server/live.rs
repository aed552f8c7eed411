//! Handlers of streams that are served as they come.

use crate::grpc::codec::Codec;
use crate::grpc::frame::{FrameView, MessageFrame};
use crate::grpc::headers::{RequestHead, RequestHeadView};
use crate::grpc::metadata::Metadata;
use crate::grpc::server::adapters;
use crate::grpc::server::reply;
use crate::grpc::server::reply::{
    LiveMessage, LiveResponse, LiveTrailers, ReplyView, Request, Response, StreamMode, StreamReply,
    StreamRoutes,
};
use crate::grpc::server::routes::{Handler, Talk};
use crate::grpc::status;
use crate::grpc::status::{Code, Status, StatusView};
use crate::h2::hpack::FieldView;
use crate::h2::stream::StreamId;
use std::marker::PhantomData;
use vstd::prelude::*;

verus! {

/// Serves a stream message by message. What comes of a stream is for the handler to say: it is
/// free to choose what `handles`, `starts` and `closes` state.
pub trait LiveStreamingHandler<C = ()>: Sized {
    type Request;

    type Response;

    type Codec: Codec<Decode = Self::Request, Encode = Self::Response>;

    /// What the handler says of a message that it has answered.
    open spec fn handles(
        before: Self,
        context: C,
        message: LiveMessage<Self::Request>,
        after: Self,
        left: C,
        r: LiveResponse<Self::Response>,
    ) -> bool {
        true
    }

    /// What the handler says of a stream that has begun.
    open spec fn starts(
        before: Self,
        context: C,
        stream: u32,
        head: RequestHeadView,
        after: Self,
        left: C,
        r: LiveResponse<Self::Response>,
    ) -> bool {
        true
    }

    /// What the handler says of a stream that has ended.
    open spec fn closes(
        before: Self,
        context: C,
        trailers: LiveTrailers,
        after: Self,
        left: C,
        r: LiveResponse<Self::Response>,
    ) -> bool {
        true
    }

    fn start(&mut self, context: &mut C, stream_id: StreamId, head: &RequestHead) -> (r:
        LiveResponse<Self::Response>)
        ensures
            Self::starts(
                *old(self),
                *old(context),
                stream_id.value(),
                head@,
                *final(self),
                *final(context),
                r,
            ),
    ;

    fn message(&mut self, context: &mut C, message: LiveMessage<Self::Request>) -> (r:
        LiveResponse<Self::Response>)
        ensures
            Self::handles(
                *old(self),
                *old(context),
                message,
                *final(self),
                *final(context),
                r,
            ),
    ;

    fn trailers(&mut self, context: &mut C, trailers: LiveTrailers) -> (r: LiveResponse<
        Self::Response,
    >)
        ensures
            Self::closes(
                *old(self),
                *old(context),
                trailers,
                *final(self),
                *final(context),
                r,
            ),
    ;
}

/// A handler of streams that are served as they come, with its codec.
pub struct LiveStreaming<H: LiveStreamingHandler<C>, C = ()> {
    handler: H,
    codec: H::Codec,
    context: PhantomData<C>,
}

/// Whether a piece of an answer is what a handler has said, as its codec has written it.
pub open spec fn told<C: Codec>(
    had: ReplyView,
    said: LiveResponse<C::Encode>,
    before: C,
    after: C,
    reply: ReplyView,
) -> bool {
    exists|given: Seq<Result<Seq<u8>, StatusView>>| #[trigger]
        reply::encoded_all::<C>(before, said.messages@, after, given) && reply == reply::applied(
            had,
            said,
            given,
        )
}

impl<H: LiveStreamingHandler<C>, C> LiveStreaming<H, C> {
    pub closed spec fn handler(&self) -> H {
        self.handler
    }

    pub closed spec fn codec(&self) -> H::Codec {
        self.codec
    }

    pub fn new(handler: H, codec: H::Codec) -> (r: Self)
        ensures
            r.handler() == handler,
            r.codec() == codec,
    {
        LiveStreaming { handler, codec, context: PhantomData }
    }
}

/// Whether a stream has begun as the handler says.
pub open spec fn live_started<H: LiveStreamingHandler<C>, C>(
    before: Talk<LiveStreaming<H, C>, C>,
    stream: u32,
    head: RequestHeadView,
    after: Talk<LiveStreaming<H, C>, C>,
    said: LiveResponse<H::Response>,
) -> bool {
    &&& after.routes == before.routes
    &&& H::starts(
        before.handler.handler(),
        before.context,
        stream,
        head,
        after.handler.handler(),
        after.context,
        said,
    )
    &&& told::<H::Codec>(
        before.reply,
        said,
        before.handler.codec(),
        after.handler.codec(),
        after.reply,
    )
}

/// Whether a message was read by the codec, and answered as the handler says.
pub open spec fn live_heard<H: LiveStreamingHandler<C>, C>(
    before: Talk<LiveStreaming<H, C>, C>,
    stream: u32,
    message: FrameView,
    after: Talk<LiveStreaming<H, C>, C>,
    mid: H::Codec,
    item: Result<H::Request, Status>,
) -> bool {
    &&& after.routes == before.routes
    &&& <H::Codec as Codec>::decoded(before.handler.codec(), message.payload, mid, item)
    &&& match item {
        Err(failure) => {
            &&& after.handler.handler() == before.handler.handler()
            &&& after.handler.codec() == mid
            &&& after.context == before.context
            &&& after.reply == (ReplyView { status: Some(failure@), ..before.reply })
        },
        Ok(read) => exists|asked: LiveMessage<H::Request>, said: LiveResponse<H::Response>|
            #[trigger] live_answered(before, stream, read, after, mid, asked, said),
    }
}

/// Whether a message that was read was answered as the handler says.
pub open spec fn live_answered<H: LiveStreamingHandler<C>, C>(
    before: Talk<LiveStreaming<H, C>, C>,
    stream: u32,
    read: H::Request,
    after: Talk<LiveStreaming<H, C>, C>,
    mid: H::Codec,
    asked: LiveMessage<H::Request>,
    said: LiveResponse<H::Response>,
) -> bool {
    &&& asked.stream_id.value() == stream
    &&& asked.message == read
    &&& H::handles(
        before.handler.handler(),
        before.context,
        asked,
        after.handler.handler(),
        after.context,
        said,
    )
    &&& told::<H::Codec>(before.reply, said, mid, after.handler.codec(), after.reply)
}

/// Whether a stream has ended as the handler says.
pub open spec fn live_ended<H: LiveStreamingHandler<C>, C>(
    before: Talk<LiveStreaming<H, C>, C>,
    stream: u32,
    trailers: Seq<FieldView>,
    after: Talk<LiveStreaming<H, C>, C>,
    asked: LiveTrailers,
    said: LiveResponse<H::Response>,
) -> bool {
    &&& after.routes == before.routes
    &&& asked.stream_id.value() == stream
    &&& asked.trailers@ == trailers
    &&& H::closes(
        before.handler.handler(),
        before.context,
        asked,
        after.handler.handler(),
        after.context,
        said,
    )
    &&& told::<H::Codec>(
        before.reply,
        said,
        before.handler.codec(),
        after.handler.codec(),
        after.reply,
    )
}

impl<H: LiveStreamingHandler<C>, C> Handler<C> for LiveStreaming<H, C> {
    open spec fn starts(
        before: Talk<Self, C>,
        stream: u32,
        head: RequestHeadView,
        after: Talk<Self, C>,
        mode: StreamMode,
    ) -> bool {
        &&& mode == StreamMode::Live
        &&& exists|said: LiveResponse<H::Response>| #[trigger]
            live_started(before, stream, head, after, said)
    }

    open spec fn hears(
        before: Talk<Self, C>,
        stream: u32,
        message: FrameView,
        after: Talk<Self, C>,
    ) -> bool {
        exists|mid: H::Codec, item: Result<H::Request, Status>| #[trigger]
            live_heard(before, stream, message, after, mid, item)
    }

    open spec fn closes(
        before: Talk<Self, C>,
        stream: u32,
        trailers: Seq<FieldView>,
        after: Talk<Self, C>,
    ) -> bool {
        exists|asked: LiveTrailers, said: LiveResponse<H::Response>| #[trigger]
            live_ended(before, stream, trailers, after, asked, said)
    }

    open spec fn answers(
        before: Self,
        context: C,
        request: Request,
        response: Response,
        after: Self,
        left: C,
        given: Response,
    ) -> bool {
        &&& after == before
        &&& left == context
        &&& given@ == adapters::with_status(
            response@,
            status::fixed(Code::Internal, "live streaming request was buffered"),
        )
    }

    fn start(
        &mut self,
        context: &mut C,
        routes: &mut StreamRoutes,
        stream_id: StreamId,
        head: &RequestHead,
        reply: &mut StreamReply,
    ) -> (r: StreamMode) {
        let ghost before = Talk {
            handler: *self,
            context: *context,
            routes: routes@,
            reply: reply@,
        };
        let said = self.handler.start(context, stream_id, head);
        let ghost whole = said;
        reply.apply_live(said, &mut self.codec);
        proof {
            let after = Talk {
                handler: *self,
                context: *context,
                routes: routes@,
                reply: reply@,
            };
            assert(told::<H::Codec>(
                before.reply,
                whole,
                before.handler.codec(),
                self.codec(),
                reply@,
            ));
            assert(live_started(before, stream_id.value(), head@, after, whole));
        }
        StreamMode::Live
    }

    fn message(
        &mut self,
        context: &mut C,
        routes: &mut StreamRoutes,
        stream_id: StreamId,
        message: MessageFrame,
        reply: &mut StreamReply,
    ) {
        let ghost before = Talk {
            handler: *self,
            context: *context,
            routes: routes@,
            reply: reply@,
        };
        let ghost id = stream_id.value();
        let ghost m = message@;
        let item = self.codec.decode(message.payload.as_slice());
        let ghost read = item;
        let ghost mid = self.codec();
        match item {
            Err(failure) => {
                reply.finish_with(failure);
                proof {
                    let after = Talk {
                        handler: *self,
                        context: *context,
                        routes: routes@,
                        reply: reply@,
                    };
                    assert(live_heard(before, id, m, after, mid, read));
                }
            },
            Ok(decoded) => {
                let asked = LiveMessage { stream_id, message: decoded };
                let ghost question = asked;
                let said = self.handler.message(context, asked);
                let ghost whole = said;
                reply.apply_live(said, &mut self.codec);
                proof {
                    let after = Talk {
                        handler: *self,
                        context: *context,
                        routes: routes@,
                        reply: reply@,
                    };
                    assert(told::<H::Codec>(before.reply, whole, mid, self.codec(), reply@));
                    assert(live_answered(
                        before,
                        id,
                        question.message,
                        after,
                        mid,
                        question,
                        whole,
                    ));
                    assert(live_heard(before, id, m, after, mid, read));
                }
            },
        }
    }

    fn trailers(
        &mut self,
        context: &mut C,
        routes: &mut StreamRoutes,
        stream_id: StreamId,
        trailers: Metadata,
        reply: &mut StreamReply,
    ) {
        let ghost before = Talk {
            handler: *self,
            context: *context,
            routes: routes@,
            reply: reply@,
        };
        let ghost list = trailers@;
        let asked = LiveTrailers { stream_id, trailers };
        let ghost question = asked;
        let said = self.handler.trailers(context, asked);
        let ghost whole = said;
        reply.apply_live(said, &mut self.codec);
        proof {
            let after = Talk {
                handler: *self,
                context: *context,
                routes: routes@,
                reply: reply@,
            };
            assert(told::<H::Codec>(
                before.reply,
                whole,
                before.handler.codec(),
                self.codec(),
                reply@,
            ));
            assert(live_ended(before, stream_id.value(), list, after, question, whole));
        }
    }

    fn request(&mut self, context: &mut C, request: Request, response: &mut Response) {
        let ghost had = response@;
        response.status = Status::new(Code::Internal, "live streaming request was buffered");
        assert(response@ =~= adapters::with_status(
            had,
            status::fixed(Code::Internal, "live streaming request was buffered"),
        ));
    }
}

} // verus!
