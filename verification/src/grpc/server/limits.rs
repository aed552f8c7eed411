//! What a server may hold, and requests that come whole.

use crate::collections;
use crate::collections::{Pool, PoolFault, PoolPlan, Supply};
use crate::grpc::frame;
use crate::grpc::frame::{DataChunk, Deframer, DeframerView, FrameView, MessageFrame};
use crate::grpc::headers::RequestHead;
use crate::grpc::metadata::Metadata;
use crate::grpc::server::reply;
use crate::grpc::server::reply::{MessageList, Request, Response};
use crate::grpc::server::routes::Handler;
use crate::grpc::status;
use crate::grpc::status::{Code, Status, StatusView};
use crate::h2::config as h2_config;
use crate::h2::config::{ConfigError, ValidatedConfig};
use crate::h2::hpack::FieldView;
use crate::h2::role;
use crate::h2::role::{Role, ServerRole};
use crate::h2::stream::StreamId;
use vstd::prelude::*;

verus! {

#[derive(Copy, Clone, Debug, PartialEq, Eq, Structural)]
pub struct Limits {
    pub max_in_flight: usize,
    pub max_message_len: usize,
    pub max_fragmented_messages: usize,
    pub max_buffered_len: usize,
    pub max_buffered_msgs: usize,
    pub max_conn_buffered_len: usize,
    pub max_pending_replies: usize,
    pub max_pending_len: usize,
}

/// The limits that nothing was said about.
pub open spec fn default_limits() -> Limits {
    Limits {
        max_in_flight: 256,
        max_message_len: 4_194_304,
        max_fragmented_messages: 4,
        max_buffered_len: 16_777_216,
        max_buffered_msgs: 8192,
        max_conn_buffered_len: 67_108_864,
        max_pending_replies: 8192,
        max_pending_len: 67_108_864,
    }
}

impl Default for Limits {
    fn default() -> (r: Self)
        ensures
            r == default_limits(),
    {
        Limits {
            max_in_flight: 256,
            max_message_len: 4_194_304,
            max_fragmented_messages: 4,
            max_buffered_len: 16_777_216,
            max_buffered_msgs: 8192,
            max_conn_buffered_len: 67_108_864,
            max_pending_replies: 8192,
            max_pending_len: 67_108_864,
        }
    }
}

/// What is said of messages that are compressed.
pub open spec fn compressed() -> StatusView {
    status::fixed(Code::Unimplemented, "compressed messages are not supported")
}

pub open spec fn any_compressed(list: Seq<FrameView>) -> bool {
    exists|i: int| 0 <= i < list.len() && (#[trigger] list[i]).compressed
}

/// Whether a handler is given a request as it came, and an answer in which nothing was said.
pub open spec fn opens(
    request: Request,
    start: Response,
    id: u32,
    head: RequestHead,
    messages: Seq<FrameView>,
    trailers: Seq<FieldView>,
) -> bool {
    &&& start@ == reply::bare(reply::okay())
    &&& request.stream_id.value() == id
    &&& request.head == head
    &&& request.messages@ == messages
    &&& request.trailers@ == trailers
}

/// What is said of a request that is complete: a handler has answered it, or its messages are
/// compressed.
pub open spec fn dispatched<H: Handler<()>>(
    before: H,
    id: u32,
    head: RequestHead,
    messages: Seq<FrameView>,
    trailers: Seq<FieldView>,
    after: H,
    r: Result<Response, Status>,
) -> bool {
    if any_compressed(messages) {
        after == before && (r matches Err(s) && s@ == compressed())
    } else {
        r matches Ok(given) && exists|request: Request, start: Response| #[trigger]
            opens(request, start, id, head, messages, trailers) && H::answers(
                before,
                (),
                request,
                start,
                after,
                (),
                given,
            )
    }
}

/// Hands a request that is complete to a handler.
pub(crate) fn dispatch_request<H: Handler<()>>(
    handler: &mut H,
    stream_id: StreamId,
    head: RequestHead,
    messages: Vec<MessageFrame>,
    trailers: Metadata,
) -> (r: Result<Response, Status>)
    ensures
        dispatched::<H>(
            *old(handler),
            stream_id.value(),
            head,
            frame::frame_views(messages@),
            trailers@,
            *final(handler),
            r,
        ),
{
    let ghost before = *handler;
    let ghost views = frame::frame_views(messages@);
    let mut i: usize = 0;
    while i < messages.len()
        invariant
            i <= messages@.len(),
            views == frame::frame_views(messages@),
            *handler == before,
            before == *old(handler),
            forall|k: int| 0 <= k < i ==> !(#[trigger] views[k]).compressed,
        decreases messages@.len() - i,
    {
        assert(views[i as int] == messages@[i as int]@);
        if messages[i].compressed {
            assert(any_compressed(views));
            return Err(
                Status::new(Code::Unimplemented, "compressed messages are not supported"),
            );
        }
        i = i + 1;
    }
    assert(!any_compressed(views));
    let mut response = Response::new();
    let ghost start = response;
    let mut context: () = ();
    let request = Request { stream_id, head, messages: MessageList::new(messages), trailers };
    let ghost asked = request;
    handler.request(&mut context, request, &mut response);
    assert(H::answers(before, (), asked, start, *handler, (), response));
    assert(opens(asked, start, stream_id.value(), head, views, trailers@));
    Ok(response)
}

/// The messages of a request that came whole. What is left of a message that is not complete
/// does not count.
pub open spec fn messages_of(d: DeframerView, input: Seq<u8>, count: nat, max: usize) -> Result<
    Seq<FrameView>,
    StatusView,
>
    decreases input.len(),
{
    if input.len() == 0 {
        Ok(Seq::empty())
    } else {
        let (next, rest, out) = frame::deframed(d, input, true);
        match out {
            Err(failure) => Err(status::frame_failure(failure)),
            Ok(None) => Ok(Seq::empty()),
            Ok(Some(m)) => if count >= max {
                Err(status::fixed(Code::ResourceExhausted, "request message buffer is full"))
            } else if rest.len() < input.len() {
                match messages_of(next, rest, count + 1, max) {
                    Ok(list) => Ok(seq![m] + list),
                    Err(failure) => Err(failure),
                }
            } else {
                Ok(seq![m])
            },
        }
    }
}

impl Limits {
    /// Reads the messages of a request that came whole.
    pub fn read_messages(&self, body: &[u8]) -> (r: Result<Vec<MessageFrame>, Status>)
        ensures
            match r {
                Ok(list) => messages_of(
                    frame::fresh(self.max_message_len),
                    body@,
                    0,
                    self.max_buffered_msgs,
                ) == Ok::<Seq<FrameView>, StatusView>(frame::frame_views(list@)),
                Err(s) => messages_of(
                    frame::fresh(self.max_message_len),
                    body@,
                    0,
                    self.max_buffered_msgs,
                ) == Err::<Seq<FrameView>, StatusView>(s@),
            },
    {
        let ghost max = self.max_buffered_msgs;
        let ghost first = frame::fresh(self.max_message_len);
        let mut deframer: Deframer = Deframer::new(self.max_message_len);
        let mut input: DataChunk = DataChunk::from_bytes(crate::bytes::to_vec(body));
        let mut list: Vec<MessageFrame> = Vec::new();
        proof {
            assert(frame::frame_views(list@) =~= Seq::<FrameView>::empty());
            lemma_prefixed(Seq::empty(), messages_of(first, body@, 0, max));
        }
        while !input.is_empty()
            invariant
                first == frame::fresh(self.max_message_len),
                max == self.max_buffered_msgs,
                deframer@.sound(),
                messages_of(first, body@, 0, max) == prefixed(
                    frame::frame_views(list@),
                    messages_of(deframer@, input@, list@.len(), max),
                ),
            decreases input@.len(),
        {
            let ghost d = deframer@;
            let ghost rest = input@;
            proof {
                frame::lemma_places(d, rest);
                if frame::deframed(d, rest, true).2 is Ok {
                    frame::lemma_gets_on(d, rest);
                }
            }
            if deframer.needs_place(&input) {
                assert(prefixed(frame::frame_views(list@), Ok(Seq::<FrameView>::empty()))
                    == Ok::<Seq<FrameView>, StatusView>(frame::frame_views(list@))) by {
                    assert(frame::frame_views(list@) + Seq::<FrameView>::empty()
                        =~= frame::frame_views(list@));
                }
                return Ok(list);
            }
            match deframer.next_with(&mut input, None) {
                Err(error) => return Err(Status::from_frame_err(error)),
                Ok(None) => {
                    assert(prefixed(frame::frame_views(list@), Ok(Seq::<FrameView>::empty()))
                        == Ok::<Seq<FrameView>, StatusView>(frame::frame_views(list@))) by {
                        assert(frame::frame_views(list@) + Seq::<FrameView>::empty()
                            =~= frame::frame_views(list@));
                    }
                    return Ok(list);
                },
                Ok(Some(message)) => {
                    if list.len() >= self.max_buffered_msgs {
                        return Err(
                            Status::new(
                                Code::ResourceExhausted,
                                "request message buffer is full",
                            ),
                        );
                    }
                    let ghost had = frame::frame_views(list@);
                    let ghost m = message@;
                    list.push(message);
                    proof {
                        assert(frame::frame_views(list@) =~= had.push(m));
                        let more = messages_of(deframer@, input@, list@.len(), max);
                        if let Ok(tail) = more {
                            assert(had + (seq![m] + tail) =~= had.push(m) + tail);
                        }
                    }
                },
            }
        }
        assert(frame::frame_views(list@) + Seq::<FrameView>::empty() =~= frame::frame_views(list@));
        Ok(list)
    }

    /// Hands a request that came whole to a handler.
    pub fn dispatch_buffered<H: Handler<()>>(
        &self,
        handler: &mut H,
        head: RequestHead,
        body: &[u8],
    ) -> (r: Response)
        ensures
            match messages_of(
                frame::fresh(self.max_message_len),
                body@,
                0,
                self.max_buffered_msgs,
            ) {
                Err(failure) => *final(handler) == *old(handler) && r@ == reply::bare(failure),
                Ok(list) => exists|given: Result<Response, Status>| #[trigger]
                    settled(given, r) && dispatched::<H>(
                        *old(handler),
                        0,
                        head,
                        list,
                        Seq::empty(),
                        *final(handler),
                        given,
                    ),
            },
    {
        let ghost before = *handler;
        let list: Vec<MessageFrame> = match self.read_messages(body) {
            Ok(list) => list,
            Err(s) => return Response::with_status(s),
        };
        let ghost views = frame::frame_views(list@);
        let given = dispatch_request(
            handler,
            StreamId::connection(),
            head,
            list,
            Metadata::new(),
        );
        let ghost outcome = given;
        let r = match given {
            Ok(response) => response,
            Err(s) => Response::with_status(s),
        };
        assert(dispatched::<H>(before, 0, head, views, Seq::empty(), *handler, outcome));
        assert(settled(outcome, r));
        r
    }
}

/// Whether an answer is the one that was given, or tells of the failure.
pub open spec fn settled(given: Result<Response, Status>, r: Response) -> bool {
    match given {
        Ok(response) => r == response,
        Err(s) => r@ == reply::bare(s@),
    }
}

/// Messages, followed by more or by a failure.
spec fn prefixed(list: Seq<FrameView>, more: Result<Seq<FrameView>, StatusView>) -> Result<
    Seq<FrameView>,
    StatusView,
> {
    match more {
        Ok(rest) => Ok(list + rest),
        Err(failure) => Err(failure),
    }
}

proof fn lemma_prefixed(list: Seq<FrameView>, more: Result<Seq<FrameView>, StatusView>)
    requires
        list.len() == 0,
    ensures
        prefixed(list, more) == more,
{
    if let Ok(rest) = more {
        assert(list + rest =~= rest);
    }
}

/// A request that came whole is read as the messages that were framed, and an answer that gives
/// them back is framed to the same bytes.
pub proof fn law_whole_requests_round_trip(limits: Limits, messages: Seq<Seq<u8>>, count: nat)
    requires
        count + messages.len() <= limits.max_buffered_msgs,
        forall|i: int|
            0 <= i < messages.len() ==> (#[trigger] messages[i]).len() <= limits.max_message_len
                && messages[i].len() <= u32::MAX,
    ensures
        messages_of(
            frame::fresh(limits.max_message_len),
            reply::body(messages).0,
            count,
            limits.max_buffered_msgs,
        ) == Ok::<Seq<FrameView>, StatusView>(
            messages.map_values(|m: Seq<u8>| reply::plain(m)),
        ),
        reply::body(messages).1 is Ok,
    decreases messages.len(),
{
    let all = messages.map_values(|m: Seq<u8>| reply::plain(m));
    if messages.len() == 0 {
        assert(all =~= Seq::<FrameView>::empty());
    } else {
        let tail = messages.drop_first();
        assert forall|i: int| 0 <= i < tail.len() implies (#[trigger] tail[i]).len()
            <= limits.max_message_len && tail[i].len() <= u32::MAX by {
            assert(tail[i] == messages[i + 1]);
        }
        law_whole_requests_round_trip(limits, tail, count + 1);
        let m = reply::plain(messages[0]);
        frame::lemma_one_message(limits.max_message_len, m, reply::body(tail).0);
        assert(all =~= seq![m] + tail.map_values(|m: Seq<u8>| reply::plain(m)));
    }
}

/// How the connection of a server is configured.
pub open spec fn connection_config(l: Limits) -> h2_config::Config {
    h2_config::Config { stream_capacity: l.max_in_flight, ..h2_config::default_config() }
}

/// What is wrong with limits.
pub open spec fn limits_fault(l: Limits) -> Option<ConfigError> {
    if l.max_in_flight == 0 {
        Some(ConfigError::ZeroCapacity("max_in_flight"))
    } else if l.max_pending_replies == 0 {
        Some(ConfigError::ZeroCapacity("max_pending_replies"))
    } else if l.max_in_flight > u32::MAX {
        Some(ConfigError::StreamCapacityOverflow)
    } else if l.max_pending_replies >= u32::MAX || l.max_buffered_msgs >= u32::MAX {
        Some(ConfigError::Pool(PoolFault::SlotOverflow))
    } else if let Some(fault) = collections::pool_fault(
        l.max_fragmented_messages,
        if l.max_message_len == 0 {
            1
        } else {
            l.max_message_len
        },
    ) {
        Some(ConfigError::Pool(fault))
    } else {
        match h2_config::validated(connection_config(l), true, false) {
            Ok(_) => None,
            Err(failure) => Some(failure),
        }
    }
}

/// Limits that were found good.
pub struct ValidatedLimits {
    limits: Limits,
    message_plan: PoolPlan,
    connection: ValidatedConfig<ServerRole>,
}

impl ValidatedLimits {
    pub closed spec fn view(&self) -> Limits {
        self.limits
    }

    #[verifier::type_invariant]
    spec fn inv(self) -> bool {
        &&& limits_fault(self.limits) is None
        &&& self.message_plan.slots() == self.limits.max_fragmented_messages
        &&& h2_config::validated(connection_config(self.limits), true, false) == Ok::<
            h2_config::ValidatedView,
            ConfigError,
        >(self.connection@)
    }

    pub fn new(limits: Limits) -> (r: Result<Self, ConfigError>)
        ensures
            match r {
                Ok(good) => good@ == limits && limits_fault(limits) is None,
                Err(failure) => limits_fault(limits) == Some(failure),
            },
    {
        proof {
            role::lemma_server();
        }
        if limits.max_in_flight == 0 {
            return Err(ConfigError::ZeroCapacity("max_in_flight"));
        }
        if limits.max_pending_replies == 0 {
            return Err(ConfigError::ZeroCapacity("max_pending_replies"));
        }
        if limits.max_in_flight > 0xffff_ffff {
            return Err(ConfigError::StreamCapacityOverflow);
        }
        if limits.max_pending_replies >= 0xffff_ffff || limits.max_buffered_msgs >= 0xffff_ffff {
            return Err(ConfigError::Pool(PoolFault::SlotOverflow));
        }
        let message_len: usize = if limits.max_message_len == 0 {
            1
        } else {
            limits.max_message_len
        };
        let message_plan: PoolPlan = match PoolPlan::new(
            limits.max_fragmented_messages,
            message_len,
        ) {
            Ok(plan) => plan,
            Err(fault) => return Err(ConfigError::Pool(fault)),
        };
        let mut config: h2_config::Config = h2_config::Config::default();
        config.stream_capacity = limits.max_in_flight;
        let connection: ValidatedConfig<ServerRole> = match ValidatedConfig::new(config) {
            Ok(connection) => connection,
            Err(failure) => return Err(failure),
        };
        Ok(ValidatedLimits { limits, message_plan, connection })
    }

    pub fn limits(&self) -> (r: Limits)
        ensures
            r == self@,
            limits_fault(r) is None,
    {
        proof {
            use_type_invariant(&*self);
        }
        self.limits
    }

    /// A pool for messages that are not complete.
    pub fn message_pool(&self) -> (r: Pool)
        ensures
            r.supply() == (Supply { limit: self@.max_fragmented_messages as nat, out: 0 }),
    {
        proof {
            use_type_invariant(&*self);
        }
        self.message_plan.pool_up_to(self.limits.max_fragmented_messages)
    }
}

impl Default for ValidatedLimits {
    fn default() -> (r: Self)
        ensures
            r@ == default_limits(),
    {
        let limits = Limits::default();
        // Memory can address pools of the usual sizes.
        let _ = PoolPlan::new(limits.max_fragmented_messages, limits.max_message_len);
        let _ = ValidatedConfig::<ServerRole>::default();
        proof {
            role::lemma_server();
        }
        ValidatedLimits::new(limits).unwrap()
    }
}

} // verus!
