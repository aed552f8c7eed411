//! Handlers that work with one service.

use crate::bytes::{equal, to_vec};
use crate::grpc::frame::{FrameView, MessageFrame};
use crate::grpc::headers::{RequestHead, RequestHeadView};
use crate::grpc::metadata::Metadata;
use crate::grpc::server::reply::{
    Request, Response, ResponseView, RoutesView, StreamMode, StreamReply, StreamRoutes,
};
use crate::grpc::server::routes;
use crate::grpc::server::routes::{Handler, Route, Talk};
use crate::grpc::status::{Code, Status};
use crate::h2::hpack::FieldView;
use crate::h2::stream::StreamId;
use vstd::prelude::*;

verus! {

/// Serves calls with a service that its owner lends it: no handler keeps the service, so it
/// needs no counted references. What comes of a call is for the handler to say: it is free to
/// choose what `answers`, `starts`, `hears` and `closes` state.
pub trait ServiceHandler<S>: Sized {
    /// What the handler says of a call that has begun.
    open spec fn starts(
        before: Talk<Self, S>,
        stream: u32,
        head: RequestHeadView,
        after: Talk<Self, S>,
        mode: StreamMode,
    ) -> bool {
        true
    }

    /// What the handler says of a message of a call that is served as it comes.
    open spec fn hears(
        before: Talk<Self, S>,
        stream: u32,
        message: FrameView,
        after: Talk<Self, S>,
    ) -> bool {
        true
    }

    /// What the handler says of the end of a call that is served as it comes.
    open spec fn closes(
        before: Talk<Self, S>,
        stream: u32,
        trailers: Seq<FieldView>,
        after: Talk<Self, S>,
    ) -> bool {
        true
    }

    /// What the handler says of a request that it has answered.
    open spec fn answers(
        before: Self,
        service: S,
        request: Request,
        response: Response,
        after: Self,
        left: S,
        given: Response,
    ) -> bool {
        true
    }

    /// A call has begun; the result says how it is served.
    fn start(
        &mut self,
        service: &mut S,
        routes: &mut StreamRoutes,
        stream_id: StreamId,
        head: &RequestHead,
        reply: &mut StreamReply,
    ) -> (r: StreamMode)
        ensures
            Self::starts(
                Talk {
                    handler: *old(self),
                    context: *old(service),
                    routes: old(routes)@,
                    reply: old(reply)@,
                },
                stream_id.value(),
                head@,
                Talk {
                    handler: *final(self),
                    context: *final(service),
                    routes: final(routes)@,
                    reply: final(reply)@,
                },
                r,
            ),
    ;

    /// A message of a call that is served as it comes.
    fn message(
        &mut self,
        service: &mut S,
        routes: &mut StreamRoutes,
        stream_id: StreamId,
        message: MessageFrame,
        reply: &mut StreamReply,
    )
        ensures
            Self::hears(
                Talk {
                    handler: *old(self),
                    context: *old(service),
                    routes: old(routes)@,
                    reply: old(reply)@,
                },
                stream_id.value(),
                message@,
                Talk {
                    handler: *final(self),
                    context: *final(service),
                    routes: final(routes)@,
                    reply: final(reply)@,
                },
            ),
    ;

    /// The end of a call that is served as it comes.
    fn trailers(
        &mut self,
        service: &mut S,
        routes: &mut StreamRoutes,
        stream_id: StreamId,
        trailers: Metadata,
        reply: &mut StreamReply,
    )
        ensures
            Self::closes(
                Talk {
                    handler: *old(self),
                    context: *old(service),
                    routes: old(routes)@,
                    reply: old(reply)@,
                },
                stream_id.value(),
                trailers@,
                Talk {
                    handler: *final(self),
                    context: *final(service),
                    routes: final(routes)@,
                    reply: final(reply)@,
                },
            ),
    ;

    /// A request that is complete.
    fn request(&mut self, service: &mut S, request: Request, response: &mut Response)
        ensures
            Self::answers(
                *old(self),
                *old(service),
                request,
                *old(response),
                *final(self),
                *final(service),
                *final(response),
            ),
    ;
}

/// Handlers by path, and the one service that they work with.
pub struct ServiceRoutes<S, H> {
    service: S,
    routes: Vec<Route<H>>,
}

impl<S, H> ServiceRoutes<S, H> {
    pub closed spec fn paths(&self) -> Seq<Seq<u8>> {
        self.routes@.map_values(|r: Route<H>| r.path@)
    }

    pub closed spec fn handlers(&self) -> Seq<H> {
        self.routes@.map_values(|r: Route<H>| r.handler)
    }

    pub closed spec fn service(&self) -> S {
        self.service
    }

    fn find(&self, path: &[u8]) -> (r: Option<usize>)
        ensures
            match r {
                Some(i) => i < self.routes@.len() && routes::place_of(self.paths(), path@) == Some(i as int),
                None => routes::place_of(self.paths(), path@) is None,
            },
    {
        let ghost paths = self.paths();
        let mut i: usize = 0;
        while i < self.routes.len()
            invariant
                i <= self.routes@.len(),
                paths == self.paths(),
                paths.len() == self.routes@.len(),
                forall|k: int| 0 <= k < i ==> (#[trigger] paths[k]) != path@,
            decreases self.routes@.len() - i,
        {
            assert(paths[i as int] == self.routes@[i as int].path@);
            if equal(self.routes[i].path.as_slice(), path) {
                proof {
                    routes::lemma_place_of(paths, path@, i as int);
                }
                return Some(i);
            }
            i = i + 1;
        }
        proof {
            routes::lemma_place_of(paths, path@, i as int);
        }
        None
    }

    /// No handlers, with a service for them.
    pub fn new(service: S) -> (r: Self)
        ensures
            r.service() == service,
            r.paths() == Seq::<Seq<u8>>::empty(),
            r.handlers() == Seq::<H>::empty(),
    {
        let r = ServiceRoutes { service, routes: Vec::new() };
        assert(r.paths() =~= Seq::<Seq<u8>>::empty());
        assert(r.handlers() =~= Seq::<H>::empty());
        r
    }

    pub fn push(&mut self, path: &[u8], handler: H)
        ensures
            final(self).service() == old(self).service(),
            final(self).paths() == old(self).paths().push(path@),
            final(self).handlers() == old(self).handlers().push(handler),
    {
        let ghost paths = self.paths();
        let ghost handlers = self.handlers();
        self.routes.push(Route { path: to_vec(path), handler });
        assert(self.paths() =~= paths.push(path@));
        assert(self.handlers() =~= handlers.push(handler));
    }
}

/// Changing one handler keeps the paths and the other handlers.
proof fn lemma_one_at<S, H>(before: ServiceRoutes<S, H>, after: ServiceRoutes<S, H>, i: int)
    requires
        0 <= i < before.routes@.len(),
        after.routes@ == before.routes@.update(
            i,
            Route { handler: after.routes@[i].handler, ..before.routes@[i] },
        ),
    ensures
        only_at(before, after, i),
        before.handlers()[i] == before.routes@[i].handler,
        after.handlers()[i] == after.routes@[i].handler,
{
    assert(after.paths() =~= before.paths());
    assert(after.handlers() =~= before.handlers().update(i, after.handlers()[i]));
}

/// What is said of a request that handlers by path have answered.
pub open spec fn routed<S, H: ServiceHandler<S>>(
    before: ServiceRoutes<S, H>,
    request: Request,
    response: Response,
    after: ServiceRoutes<S, H>,
    given: Response,
) -> bool {
    &&& after.paths() == before.paths()
    &&& match routes::place_of(before.paths(), request.head.path@) {
        None => after == before && given@ == (ResponseView {
            status: routes::unknown_method(),
            ..response@
        }),
        Some(i) => routes::one_changed(before.handlers(), after.handlers(), i) && H::answers(
            before.handlers()[i],
            before.service(),
            request,
            response,
            after.handlers()[i],
            after.service(),
            given,
        ),
    }
}

/// The handler at `i`, with what it works with.
pub open spec fn lent<S, H>(t: Talk<ServiceRoutes<S, H>, ()>, i: int) -> Talk<H, S> {
    Talk {
        handler: t.handler.handlers()[i],
        context: t.handler.service(),
        routes: t.routes,
        reply: t.reply,
    }
}

/// Whether at most the handler at `i` and the context have changed.
pub open spec fn only_at<S, H>(before: ServiceRoutes<S, H>, after: ServiceRoutes<S, H>, i: int) -> bool {
    after.paths() == before.paths() && routes::one_changed(before.handlers(), after.handlers(), i)
}

/// Whether the handler at `i` was told of a call, and what it left in the routes is `mid`.
pub open spec fn started_at<S, H: ServiceHandler<S>>(
    before: Talk<ServiceRoutes<S, H>, ()>,
    stream: u32,
    head: RequestHeadView,
    after: Talk<ServiceRoutes<S, H>, ()>,
    mode: StreamMode,
    i: int,
    mid: RoutesView,
) -> bool {
    &&& only_at(before.handler, after.handler, i)
    &&& H::starts(lent(before, i), stream, head, routes::with_routes(lent(after, i), mid), mode)
    &&& after.routes == routes::bound(mid, stream, i, mode)
}

/// What is said of a call that handlers by path were told of.
pub open spec fn routed_start<S, H: ServiceHandler<S>>(
    before: Talk<ServiceRoutes<S, H>, ()>,
    stream: u32,
    head: RequestHeadView,
    after: Talk<ServiceRoutes<S, H>, ()>,
    mode: StreamMode,
) -> bool {
    match routes::place_of(before.handler.paths(), head.path) {
        None => mode == StreamMode::Buffered && after == before,
        Some(i) => exists|mid: RoutesView| #[trigger]
            started_at(before, stream, head, after, mode, i, mid),
    }
}

/// What is said of a message that handlers by path were told of.
pub open spec fn routed_message<S, H: ServiceHandler<S>>(
    before: Talk<ServiceRoutes<S, H>, ()>,
    stream: u32,
    message: FrameView,
    after: Talk<ServiceRoutes<S, H>, ()>,
) -> bool {
    let i = before.routes.routes[stream] as int;
    if before.routes.routes.contains_key(stream) && i < before.handler.handlers().len() {
        &&& only_at(before.handler, after.handler, i)
        &&& H::hears(lent(before, i), stream, message, lent(after, i))
    } else {
        after == before
    }
}

/// What is said of the end of a call that handlers by path were told of.
pub open spec fn routed_end<S, H: ServiceHandler<S>>(
    before: Talk<ServiceRoutes<S, H>, ()>,
    stream: u32,
    trailers: Seq<FieldView>,
    after: Talk<ServiceRoutes<S, H>, ()>,
) -> bool {
    let i = before.routes.routes[stream] as int;
    let open = routes::with_routes(before, routes::unbound(before.routes, stream));
    if before.routes.routes.contains_key(stream) && i < before.handler.handlers().len() {
        &&& only_at(before.handler, after.handler, i)
        &&& H::closes(lent(open, i), stream, trailers, lent(after, i))
    } else {
        after == open
    }
}

impl<S, H: ServiceHandler<S>> Handler for ServiceRoutes<S, H> {
    open spec fn starts(
        before: Talk<Self, ()>,
        stream: u32,
        head: RequestHeadView,
        after: Talk<Self, ()>,
        mode: StreamMode,
    ) -> bool {
        routed_start(before, stream, head, after, mode)
    }

    open spec fn hears(
        before: Talk<Self, ()>,
        stream: u32,
        message: FrameView,
        after: Talk<Self, ()>,
    ) -> bool {
        routed_message(before, stream, message, after)
    }

    open spec fn closes(
        before: Talk<Self, ()>,
        stream: u32,
        trailers: Seq<FieldView>,
        after: Talk<Self, ()>,
    ) -> bool {
        routed_end(before, stream, trailers, after)
    }

    open spec fn answers(
        before: Self,
        context: (),
        request: Request,
        response: Response,
        after: Self,
        left: (),
        given: Response,
    ) -> bool {
        routed(before, request, response, after, given)
    }

    fn start(
        &mut self,
        context: &mut (),
        routes: &mut StreamRoutes,
        stream_id: StreamId,
        head: &RequestHead,
        reply: &mut StreamReply,
    ) -> (r: StreamMode) {
        let ghost before = Talk {
            handler: *self,
            context: *context,
            routes: routes@,
            reply: reply@,
        };
        let at: usize = match self.find(head.path.as_slice()) {
            Some(at) => at,
            None => return StreamMode::Buffered,
        };
        let mode: StreamMode = self.routes[at].handler.start(
            &mut self.service,
            routes,
            stream_id,
            head,
            reply,
        );
        let ghost mid = routes@;
        if mode == StreamMode::Live && routes.has_room(stream_id) {
            routes.bind(stream_id, at);
        }
        proof {
            let after = Talk {
                handler: *self,
                context: *context,
                routes: routes@,
                reply: reply@,
            };
            lemma_one_at(before.handler, *self, at as int);
            assert(H::starts(
                lent(before, at as int),
                stream_id.value(),
                head@,
                routes::with_routes(lent(after, at as int), mid),
                mode,
            ));
            assert(started_at(
                before,
                stream_id.value(),
                head@,
                after,
                mode,
                at as int,
                mid,
            ));
            let i = routes::place_of(before.handler.paths(), head@.path)->0;
            assert(started_at(before, stream_id.value(), head@, after, mode, i, mid));
        }
        mode
    }

    fn message(
        &mut self,
        context: &mut (),
        routes: &mut StreamRoutes,
        stream_id: StreamId,
        message: MessageFrame,
        reply: &mut StreamReply,
    ) {
        let ghost before = *self;
        match routes.route(stream_id) {
            Some(at) => {
                if at < self.routes.len() {
                    self.routes[at].handler.message(
                        &mut self.service,
                        routes,
                        stream_id,
                        message,
                        reply,
                    );
                    proof {
                        lemma_one_at(before, *self, at as int);
                    }
                }
            },
            None => {},
        }
    }

    fn trailers(
        &mut self,
        context: &mut (),
        routes: &mut StreamRoutes,
        stream_id: StreamId,
        trailers: Metadata,
        reply: &mut StreamReply,
    ) {
        let ghost before = *self;
        match routes.release(stream_id) {
            Some(at) => {
                if at < self.routes.len() {
                    self.routes[at].handler.trailers(
                        &mut self.service,
                        routes,
                        stream_id,
                        trailers,
                        reply,
                    );
                    proof {
                        lemma_one_at(before, *self, at as int);
                    }
                }
            },
            None => {},
        }
    }

    fn request(&mut self, context: &mut (), request: Request, response: &mut Response) {
        let ghost before = *self;
        match self.find(request.head.path.as_slice()) {
            None => {
                response.status = Status::new(Code::Unimplemented, "unknown gRPC method");
            },
            Some(at) => {
                self.routes[at].handler.request(&mut self.service, request, response);
                proof {
                    lemma_one_at(before, *self, at as int);
                }
            },
        }
    }
}

} // verus!
