//! Handlers, and the paths under which they are found.

use crate::bytes::{equal, to_vec};
use crate::grpc::frame::{FrameView, MessageFrame};
use crate::grpc::headers::{RequestHead, RequestHeadView};
use crate::grpc::metadata::Metadata;
use crate::grpc::server::reply::{
    ReplyView, Request, Response, ResponseView, RoutesView, StreamMode, StreamReply, StreamRoutes,
};
use crate::grpc::status;
use crate::grpc::status::{Code, Status};
use crate::h2::hpack::FieldView;
use crate::h2::stream::StreamId;
use vstd::prelude::*;

verus! {

/// A handler and what it works with, at some time: a context, the routes of streams, and a piece
/// of an answer.
#[verifier::ext_equal]
pub struct Talk<H, C> {
    pub handler: H,
    pub context: C,
    pub routes: RoutesView,
    pub reply: ReplyView,
}

/// Serves calls. What comes of a call is for the handler to say: it is free to choose what
/// `answers`, `starts`, `hears` and `closes` state.
pub trait Handler<C = ()>: Sized {
    /// What the handler says of a call that has begun.
    open spec fn starts(
        before: Talk<Self, C>,
        stream: u32,
        head: RequestHeadView,
        after: Talk<Self, C>,
        mode: StreamMode,
    ) -> bool {
        true
    }

    /// What the handler says of a message of a call that is served as it comes.
    open spec fn hears(
        before: Talk<Self, C>,
        stream: u32,
        message: FrameView,
        after: Talk<Self, C>,
    ) -> bool {
        true
    }

    /// What the handler says of the end of a call that is served as it comes.
    open spec fn closes(
        before: Talk<Self, C>,
        stream: u32,
        trailers: Seq<FieldView>,
        after: Talk<Self, C>,
    ) -> bool {
        true
    }

    /// What the handler says of a request that it has answered.
    open spec fn answers(
        before: Self,
        context: C,
        request: Request,
        response: Response,
        after: Self,
        left: C,
        given: Response,
    ) -> bool {
        true
    }

    /// A call has begun; the result says how it is served.
    fn start(
        &mut self,
        context: &mut C,
        routes: &mut StreamRoutes,
        stream_id: StreamId,
        head: &RequestHead,
        reply: &mut StreamReply,
    ) -> (r: StreamMode)
        ensures
            Self::starts(
                Talk {
                    handler: *old(self),
                    context: *old(context),
                    routes: old(routes)@,
                    reply: old(reply)@,
                },
                stream_id.value(),
                head@,
                Talk {
                    handler: *final(self),
                    context: *final(context),
                    routes: final(routes)@,
                    reply: final(reply)@,
                },
                r,
            ),
    ;

    /// A message of a call that is served as it comes.
    fn message(
        &mut self,
        context: &mut C,
        routes: &mut StreamRoutes,
        stream_id: StreamId,
        message: MessageFrame,
        reply: &mut StreamReply,
    )
        ensures
            Self::hears(
                Talk {
                    handler: *old(self),
                    context: *old(context),
                    routes: old(routes)@,
                    reply: old(reply)@,
                },
                stream_id.value(),
                message@,
                Talk {
                    handler: *final(self),
                    context: *final(context),
                    routes: final(routes)@,
                    reply: final(reply)@,
                },
            ),
    ;

    /// The end of a call that is served as it comes.
    fn trailers(
        &mut self,
        context: &mut C,
        routes: &mut StreamRoutes,
        stream_id: StreamId,
        trailers: Metadata,
        reply: &mut StreamReply,
    )
        ensures
            Self::closes(
                Talk {
                    handler: *old(self),
                    context: *old(context),
                    routes: old(routes)@,
                    reply: old(reply)@,
                },
                stream_id.value(),
                trailers@,
                Talk {
                    handler: *final(self),
                    context: *final(context),
                    routes: final(routes)@,
                    reply: final(reply)@,
                },
            ),
    ;

    /// A request that is complete.
    fn request(&mut self, context: &mut C, request: Request, response: &mut Response)
        ensures
            Self::answers(
                *old(self),
                *old(context),
                request,
                *old(response),
                *final(self),
                *final(context),
                *final(response),
            ),
    ;
}

/// A handler and its path.
pub struct Route<H> {
    pub path: Vec<u8>,
    pub handler: H,
}

/// The first place of a path.
pub open spec fn place_of(paths: Seq<Seq<u8>>, path: Seq<u8>) -> Option<int>
    decreases paths.len(),
{
    if paths.len() == 0 {
        None
    } else if paths[0] == path {
        Some(0)
    } else {
        match place_of(paths.drop_first(), path) {
            Some(i) => Some(i + 1),
            None => None,
        }
    }
}

pub proof fn lemma_place_of(paths: Seq<Seq<u8>>, path: Seq<u8>, i: int)
    requires
        0 <= i <= paths.len(),
        forall|k: int| 0 <= k < i ==> (#[trigger] paths[k]) != path,
        i < paths.len() ==> paths[i] == path,
    ensures
        place_of(paths, path) == (if i < paths.len() {
            Some(i)
        } else {
            None
        }),
    decreases paths.len(),
{
    if i > 0 {
        let rest = paths.drop_first();
        assert(forall|k: int| 0 <= k < rest.len() ==> rest[k] == paths[k + 1]);
        lemma_place_of(rest, path, i - 1);
    }
}

/// Handlers by path, with a context that they share.
pub struct Routes<H, C = ()> {
    context: C,
    routes: Vec<Route<H>>,
}

/// What is said of a path that no handler has.
pub open spec fn unknown_method() -> status::StatusView {
    status::fixed(Code::Unimplemented, "unknown gRPC method")
}

impl<H, C> Routes<H, C> {
    pub closed spec fn paths(&self) -> Seq<Seq<u8>> {
        self.routes@.map_values(|r: Route<H>| r.path@)
    }

    pub closed spec fn handlers(&self) -> Seq<H> {
        self.routes@.map_values(|r: Route<H>| r.handler)
    }

    pub closed spec fn context(&self) -> C {
        self.context
    }

    fn find(&self, path: &[u8]) -> (r: Option<usize>)
        ensures
            match r {
                Some(i) => i < self.routes@.len() && place_of(self.paths(), path@) == Some(i as int),
                None => place_of(self.paths(), path@) is None,
            },
    {
        let ghost paths = self.paths();
        let mut i: usize = 0;
        while i < self.routes.len()
            invariant
                i <= self.routes@.len(),
                paths == self.paths(),
                paths.len() == self.routes@.len(),
                forall|k: int| 0 <= k < i ==> (#[trigger] paths[k]) != path@,
            decreases self.routes@.len() - i,
        {
            assert(paths[i as int] == self.routes@[i as int].path@);
            if equal(self.routes[i].path.as_slice(), path) {
                proof {
                    lemma_place_of(paths, path@, i as int);
                }
                return Some(i);
            }
            i = i + 1;
        }
        proof {
            lemma_place_of(paths, path@, i as int);
        }
        None
    }

    /// No handlers, with a context for them.
    pub fn with_context(context: C) -> (r: Self)
        ensures
            r.context() == context,
            r.paths() == Seq::<Seq<u8>>::empty(),
            r.handlers() == Seq::<H>::empty(),
    {
        let r = Routes { context, routes: Vec::new() };
        assert(r.paths() =~= Seq::<Seq<u8>>::empty());
        assert(r.handlers() =~= Seq::<H>::empty());
        r
    }

    pub fn route(self, path: &[u8], handler: H) -> (r: Self)
        ensures
            r.context() == self.context(),
            r.paths() == self.paths().push(path@),
            r.handlers() == self.handlers().push(handler),
    {
        let mut r = self;
        r.push(path, handler);
        r
    }

    pub fn push(&mut self, path: &[u8], handler: H)
        ensures
            final(self).context() == old(self).context(),
            final(self).paths() == old(self).paths().push(path@),
            final(self).handlers() == old(self).handlers().push(handler),
    {
        let ghost paths = self.paths();
        let ghost handlers = self.handlers();
        self.routes.push(Route { path: to_vec(path), handler });
        assert(self.paths() =~= paths.push(path@));
        assert(self.handlers() =~= handlers.push(handler));
    }
}

impl<H> Routes<H, ()> {
    pub fn new() -> (r: Self)
        ensures
            r.paths() == Seq::<Seq<u8>>::empty(),
            r.handlers() == Seq::<H>::empty(),
    {
        Routes::with_context(())
    }
}

impl<H> Default for Routes<H, ()> {
    fn default() -> (r: Self)
        ensures
            r.paths() == Seq::<Seq<u8>>::empty(),
            r.handlers() == Seq::<H>::empty(),
    {
        Routes::new()
    }
}

/// Whether only the handler at `i` has changed.
pub open spec fn one_changed<H>(before: Seq<H>, after: Seq<H>, i: int) -> bool {
    &&& 0 <= i < before.len()
    &&& after == before.update(i, after[i])
}

/// Changing one handler keeps the paths and the other handlers.
proof fn lemma_one_at<H, C>(before: Routes<H, C>, after: Routes<H, C>, i: int)
    requires
        0 <= i < before.routes@.len(),
        after.routes@ == before.routes@.update(
            i,
            Route { handler: after.routes@[i].handler, ..before.routes@[i] },
        ),
    ensures
        only_at(before, after, i),
        before.handlers()[i] == before.routes@[i].handler,
        after.handlers()[i] == after.routes@[i].handler,
{
    assert(after.paths() =~= before.paths());
    assert(after.handlers() =~= before.handlers().update(i, after.handlers()[i]));
}

/// What is said of a request that handlers by path have answered.
pub open spec fn routed<H: Handler<C>, C>(
    before: Routes<H, C>,
    request: Request,
    response: Response,
    after: Routes<H, C>,
    given: Response,
) -> bool {
    &&& after.paths() == before.paths()
    &&& match place_of(before.paths(), request.head.path@) {
        None => after == before && given@ == (ResponseView {
            status: unknown_method(),
            ..response@
        }),
        Some(i) => one_changed(before.handlers(), after.handlers(), i) && H::answers(
            before.handlers()[i],
            before.context(),
            request,
            response,
            after.handlers()[i],
            after.context(),
            given,
        ),
    }
}

/// The handler at `i`, with what it works with.
pub open spec fn lent<H, C>(t: Talk<Routes<H, C>, ()>, i: int) -> Talk<H, C> {
    Talk {
        handler: t.handler.handlers()[i],
        context: t.handler.context(),
        routes: t.routes,
        reply: t.reply,
    }
}

pub open spec fn with_routes<H, C>(t: Talk<H, C>, routes: RoutesView) -> Talk<H, C> {
    Talk { routes, ..t }
}

/// Routes in which a stream that is served as it comes has found its place.
pub open spec fn bound(routes: RoutesView, stream: u32, i: int, mode: StreamMode) -> RoutesView {
    if mode == StreamMode::Live && routes.has_room(stream) {
        RoutesView { routes: routes.routes.insert(stream, i as usize), ..routes }
    } else {
        routes
    }
}

/// Routes without a stream.
pub open spec fn unbound(routes: RoutesView, stream: u32) -> RoutesView {
    RoutesView { routes: routes.routes.remove(stream), ..routes }
}

/// Whether at most the handler at `i` and the context have changed.
pub open spec fn only_at<H, C>(before: Routes<H, C>, after: Routes<H, C>, i: int) -> bool {
    after.paths() == before.paths() && one_changed(before.handlers(), after.handlers(), i)
}

/// Whether the handler at `i` was told of a call, and what it left in the routes is `mid`.
pub open spec fn started_at<H: Handler<C>, C>(
    before: Talk<Routes<H, C>, ()>,
    stream: u32,
    head: RequestHeadView,
    after: Talk<Routes<H, C>, ()>,
    mode: StreamMode,
    i: int,
    mid: RoutesView,
) -> bool {
    &&& only_at(before.handler, after.handler, i)
    &&& H::starts(lent(before, i), stream, head, with_routes(lent(after, i), mid), mode)
    &&& after.routes == bound(mid, stream, i, mode)
}

/// What is said of a call that handlers by path were told of.
pub open spec fn routed_start<H: Handler<C>, C>(
    before: Talk<Routes<H, C>, ()>,
    stream: u32,
    head: RequestHeadView,
    after: Talk<Routes<H, C>, ()>,
    mode: StreamMode,
) -> bool {
    match place_of(before.handler.paths(), head.path) {
        None => mode == StreamMode::Buffered && after == before,
        Some(i) => exists|mid: RoutesView| #[trigger]
            started_at(before, stream, head, after, mode, i, mid),
    }
}

/// What is said of a message that handlers by path were told of.
pub open spec fn routed_message<H: Handler<C>, C>(
    before: Talk<Routes<H, C>, ()>,
    stream: u32,
    message: FrameView,
    after: Talk<Routes<H, C>, ()>,
) -> bool {
    let i = before.routes.routes[stream] as int;
    if before.routes.routes.contains_key(stream) && i < before.handler.handlers().len() {
        &&& only_at(before.handler, after.handler, i)
        &&& H::hears(lent(before, i), stream, message, lent(after, i))
    } else {
        after == before
    }
}

/// What is said of the end of a call that handlers by path were told of.
pub open spec fn routed_end<H: Handler<C>, C>(
    before: Talk<Routes<H, C>, ()>,
    stream: u32,
    trailers: Seq<FieldView>,
    after: Talk<Routes<H, C>, ()>,
) -> bool {
    let i = before.routes.routes[stream] as int;
    let open = with_routes(before, unbound(before.routes, stream));
    if before.routes.routes.contains_key(stream) && i < before.handler.handlers().len() {
        &&& only_at(before.handler, after.handler, i)
        &&& H::closes(lent(open, i), stream, trailers, lent(after, i))
    } else {
        after == open
    }
}

impl<H: Handler<C>, C> Handler for Routes<H, C> {
    open spec fn starts(
        before: Talk<Self, ()>,
        stream: u32,
        head: RequestHeadView,
        after: Talk<Self, ()>,
        mode: StreamMode,
    ) -> bool {
        routed_start(before, stream, head, after, mode)
    }

    open spec fn hears(
        before: Talk<Self, ()>,
        stream: u32,
        message: FrameView,
        after: Talk<Self, ()>,
    ) -> bool {
        routed_message(before, stream, message, after)
    }

    open spec fn closes(
        before: Talk<Self, ()>,
        stream: u32,
        trailers: Seq<FieldView>,
        after: Talk<Self, ()>,
    ) -> bool {
        routed_end(before, stream, trailers, after)
    }

    open spec fn answers(
        before: Self,
        context: (),
        request: Request,
        response: Response,
        after: Self,
        left: (),
        given: Response,
    ) -> bool {
        routed(before, request, response, after, given)
    }

    fn start(
        &mut self,
        context: &mut (),
        routes: &mut StreamRoutes,
        stream_id: StreamId,
        head: &RequestHead,
        reply: &mut StreamReply,
    ) -> (r: StreamMode) {
        let ghost before = Talk {
            handler: *self,
            context: *context,
            routes: routes@,
            reply: reply@,
        };
        let at: usize = match self.find(head.path.as_slice()) {
            Some(at) => at,
            None => return StreamMode::Buffered,
        };
        let mode: StreamMode = self.routes[at].handler.start(
            &mut self.context,
            routes,
            stream_id,
            head,
            reply,
        );
        let ghost mid = routes@;
        if mode == StreamMode::Live && routes.has_room(stream_id) {
            routes.bind(stream_id, at);
        }
        proof {
            let after = Talk {
                handler: *self,
                context: *context,
                routes: routes@,
                reply: reply@,
            };
            lemma_one_at(before.handler, *self, at as int);
            assert(H::starts(
                lent(before, at as int),
                stream_id.value(),
                head@,
                with_routes(lent(after, at as int), mid),
                mode,
            ));
            assert(started_at(
                before,
                stream_id.value(),
                head@,
                after,
                mode,
                at as int,
                mid,
            ));
            let i = place_of(before.handler.paths(), head@.path)->0;
            assert(started_at(before, stream_id.value(), head@, after, mode, i, mid));
        }
        mode
    }

    fn message(
        &mut self,
        context: &mut (),
        routes: &mut StreamRoutes,
        stream_id: StreamId,
        message: MessageFrame,
        reply: &mut StreamReply,
    ) {
        let ghost before = *self;
        match routes.route(stream_id) {
            Some(at) => {
                if at < self.routes.len() {
                    self.routes[at].handler.message(
                        &mut self.context,
                        routes,
                        stream_id,
                        message,
                        reply,
                    );
                    proof {
                        lemma_one_at(before, *self, at as int);
                    }
                }
            },
            None => {},
        }
    }

    fn trailers(
        &mut self,
        context: &mut (),
        routes: &mut StreamRoutes,
        stream_id: StreamId,
        trailers: Metadata,
        reply: &mut StreamReply,
    ) {
        let ghost before = *self;
        match routes.release(stream_id) {
            Some(at) => {
                if at < self.routes.len() {
                    self.routes[at].handler.trailers(
                        &mut self.context,
                        routes,
                        stream_id,
                        trailers,
                        reply,
                    );
                    proof {
                        lemma_one_at(before, *self, at as int);
                    }
                }
            },
            None => {},
        }
    }

    fn request(&mut self, context: &mut (), request: Request, response: &mut Response) {
        let ghost before = *self;
        match self.find(request.head.path.as_slice()) {
            None => {
                response.status = Status::new(Code::Unimplemented, "unknown gRPC method");
            },
            Some(at) => {
                self.routes[at].handler.request(&mut self.context, request, response);
                proof {
                    lemma_one_at(before, *self, at as int);
                }
            },
        }
    }
}

/// A path leads to the first of the paths that it equals, and to none where it equals none.
pub proof fn law_paths_lead_to_their_place(paths: Seq<Seq<u8>>, path: Seq<u8>)
    ensures
        place_of(paths, path) matches Some(i) ==> 0 <= i < paths.len() && paths[i] == path
            && forall|k: int| 0 <= k < i ==> #[trigger] paths[k] != path,
        place_of(paths, path) is None ==> forall|k: int|
            0 <= k < paths.len() ==> #[trigger] paths[k] != path,
    decreases paths.len(),
{
    if paths.len() > 0 {
        let rest = paths.drop_first();
        law_paths_lead_to_their_place(rest, path);
        assert forall|k: int| 0 < k < paths.len() implies #[trigger] paths[k] == rest[k - 1] by {}
    }
}

/// A request is answered by the handler at its path and by no other. A path that no handler has is
/// answered with the status that says so, and no handler is asked.
pub proof fn law_requests_go_to_their_handler<H: Handler<C>, C>(
    before: Routes<H, C>,
    request: Request,
    response: Response,
    after: Routes<H, C>,
    given: Response,
    k: int,
)
    requires
        routed(before, request, response, after, given),
        0 <= k < before.paths().len(),
        before.handlers().len() == before.paths().len(),
    ensures
        after.handlers().len() == before.handlers().len(),
        before.paths()[k] != request.head.path@ ==> after.handlers()[k] == before.handlers()[k],
        (forall|j: int| 0 <= j < before.paths().len() ==> #[trigger] before.paths()[j]
            != request.head.path@) ==> given@.status == (status::StatusView {
            code: Code::Unimplemented,
            message: "unknown gRPC method"@,
        }) && given@.messages == response@.messages && after == before,
{
    law_paths_lead_to_their_place(before.paths(), request.head.path@);
}

/// The messages of a call that is served as it comes go to the handler that was told of its start.
pub proof fn law_live_calls_stay_with_their_handler<H: Handler<C>, C>(
    before: Talk<Routes<H, C>, ()>,
    stream: u32,
    head: RequestHeadView,
    open: Talk<Routes<H, C>, ()>,
    i: int,
    mid: RoutesView,
    message: FrameView,
    after: Talk<Routes<H, C>, ()>,
)
    requires
        started_at(before, stream, head, open, StreamMode::Live, i, mid),
        mid.has_room(stream),
        0 <= i < before.handler.handlers().len() <= usize::MAX,
        routed_message(open, stream, message, after),
    ensures
        only_at(open.handler, after.handler, i),
        H::hears(lent(open, i), stream, message, lent(after, i)),
{
}

} // verus!
