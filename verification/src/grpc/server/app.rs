//! A server on one connection.

use super::call::{outcome, CallStore, TakenStream};
use super::limits;
use super::limits::{dispatch_request, Limits, ValidatedLimits};
use super::liveness;
use super::liveness::Liveness;
use super::model;
use super::model::{CallsView, Ended, PendingView, Round, Said, Script, ServerView};
use super::reply;
use super::reply::{Response, ResponseView, RoutesView, StreamMode, StreamReply, StreamRoutes};
use super::routes;
use super::routes::Handler;
use super::voices;
use super::voices::{Stage, Voice};
use crate::collections::{Permit, Pool, Room, Supply};
use crate::grpc::frame;
use crate::grpc::frame::{DataChunk, FrameView, MessageFrame};
use crate::grpc::headers;
use crate::grpc::headers::{HeaderBlock, RequestHead};
use crate::grpc::metadata::Metadata;
use crate::grpc::status;
use crate::grpc::status::{Code, Status, StatusView};
use crate::h2::config as h2_config;
use crate::h2::conn::model as conn_model;
use crate::h2::conn::model::{Chance, ConnView};
use crate::h2::conn::places;
use crate::h2::conn::progress;
use crate::h2::conn::Conn;
use crate::h2::error::ConnError;
use crate::h2::event::{DataPayload, Event, EventView};
use crate::h2::frame::ErrorCode;
use crate::h2::hpack;
use crate::h2::hpack::{FieldView, OwnedHeader};
use crate::h2::role;
use crate::h2::role::{Role, ServerRole};
use crate::h2::stream::StreamId;
use vstd::prelude::*;

verus! {

/// A server on one connection.
pub struct ConnState {
    h2: Conn<ServerRole>,
    calls: CallStore,
    live_routes: StreamRoutes,
    message_pool: Pool,
    probed: bool,
}

proof fn lemma_messages_keep_ingress(c: ConnView, id: u32, p: PendingView, len: usize)
    ensures
        model::messages_driven(c, id, p, len).0.ingress == c.ingress,
    decreases
            p.messages.len(),
            (if p.messages.len() > 0 {
                p.messages[0].len() + frame::PREFIX_LEN - p.frame_pos
            } else {
                0
            }),
{
    conn_model::lemma_sending_keeps_ingress(c, id);
    if p.messages.len() > 0 && p.messages[0].len() <= u32::MAX && p.messages[0].len()
        + frame::PREFIX_LEN <= usize::MAX {
        let whole = frame::framed(reply::plain(p.messages[0]));
        let rest = whole.skip(p.frame_pos as int);
        let (next, sent) = conn_model::data_sent(c, id, rest, false);
        if let Ok(n) = sent {
            if n != 0 && n <= rest.len() {
                let left = PendingView { remaining: model::less(p.remaining, n), ..p };
                if p.frame_pos + n == whole.len() {
                    lemma_messages_keep_ingress(
                        next,
                        id,
                        PendingView {
                            messages: p.messages.drop_first(),
                            batches: model::shorter(p.batches),
                            frame_pos: 0,
                            ..left
                        },
                        model::less(len, n),
                    );
                } else if p.frame_pos + n < whole.len() {
                    lemma_messages_keep_ingress(
                        next,
                        id,
                        PendingView { frame_pos: (p.frame_pos + n) as nat, ..left },
                        model::less(len, n),
                    );
                }
            }
        }
    }
}

proof fn lemma_turn_keeps_ingress(v: CallsView, c: ConnView)
    ensures
        model::turn(v, c).1.ingress == c.ingress,
{
    reveal(model::turn);
    let id = v.queue[0];
    conn_model::lemma_sending_keeps_ingress(c, id);
    if v.has(id) {
        if let Some(p) = v.calls[id].pending {
            if p.headers_sent {
                lemma_messages_keep_ingress(c, id, p, v.pending_len);
            } else {
                let next = conn_model::response_sent(c, id, p.fields, false).0;
                lemma_messages_keep_ingress(
                    next,
                    id,
                    PendingView { headers_sent: true, ..p },
                    v.pending_len,
                );
            }
        }
    }
}

pub proof fn lemma_flushing_keeps_ingress(v: CallsView, c: ConnView, n: nat)
    ensures
        model::flushed(v, c, n).1.ingress == c.ingress,
    decreases n,
{
    if n > 0 && v.queue.len() > 0 {
        lemma_turn_keeps_ingress(v, c);
        let (next, conn) = model::turn(v, c);
        lemma_flushing_keeps_ingress(next, conn, (n - 1) as nat);
    }
}

/// The fields of an answer of which nothing is said.
proof fn lemma_bare_fields(s: StatusView)
    ensures
        headers::response_fields(Seq::empty()) == Ok::<Seq<FieldView>, StatusView>(
            headers::response_head_fields(),
        ),
        headers::trailer_fields(s, Seq::empty()) == Ok::<Seq<FieldView>, StatusView>(
            headers::trailer_head_fields(s),
        ),
{
    let none = Seq::<FieldView>::empty();
    assert(headers::response_head_fields() + none =~= headers::response_head_fields());
    assert(headers::trailer_head_fields(s) + none =~= headers::trailer_head_fields(s));
}

/// A server on a connection on which nothing has happened.
pub open spec fn initial(l: Limits) -> ServerView {
    ServerView {
        conn: conn_model::initial(
            h2_config::validated(limits::connection_config(l), true, false)->Ok_0,
            false,
            2,
        ),
        calls: CallsView {
            calls: Map::empty(),
            capacity: l.max_in_flight as nat,
            messages: Room { held: 0, limit: l.max_buffered_msgs as nat, spent: 0 },
            replies: Room { held: 0, limit: l.max_pending_replies as nat, spent: 0 },
            buffered: 0,
            queue: Seq::empty(),
            queue_capacity: l.max_in_flight as nat,
            pending_len: 0,
            pending_capacity: l.max_pending_len,
        },
        routes: RoutesView { routes: Map::empty(), capacity: l.max_in_flight as nat },
        fragments: Supply { limit: l.max_fragmented_messages as nat, out: 0 },
    }
}

impl ConnState {
    pub closed spec fn view(&self) -> ServerView {
        ServerView {
            conn: self.h2@,
            calls: self.calls@,
            routes: self.live_routes@,
            fragments: self.message_pool.supply(),
        }
    }

    pub closed spec fn wf(&self) -> bool {
        self.h2.wf() && self.calls.wf()
    }

    /// Whether it is known that the peer speaks this protocol.
    pub closed spec fn probed(&self) -> bool {
        self.probed
    }

    pub fn with_limits(limits: &ValidatedLimits) -> (r: Self)
        ensures
            r.wf(),
            r@ == initial(limits@),
            !r.probed(),
    {
        proof {
            role::lemma_server();
        }
        let l: Limits = limits.limits();
        let mut config: h2_config::Config = h2_config::Config::default();
        config.stream_capacity = l.max_in_flight;
        let h2: Conn<ServerRole> = Conn::with_config(config).unwrap();
        ConnState {
            h2,
            calls: CallStore::with_capacity(
                l.max_in_flight,
                l.max_buffered_msgs,
                l.max_pending_replies,
                l.max_pending_len,
            ),
            live_routes: StreamRoutes::with_capacity(l.max_in_flight),
            message_pool: limits.message_pool(),
            probed: false,
        }
    }

    /// The connection.
    pub fn connection(&self) -> (r: &Conn<ServerRole>)
        requires
            self.wf(),
        ensures
            r.wf(),
            r@ == self@.conn,
    {
        &self.h2
    }

    /// Tells a failure: the call is gone, and its answer is an end with a status.
    pub fn send_error(&mut self, stream_id: StreamId, status: Status)
        requires
            old(self).wf(),
        ensures
            final(self).wf(),
            final(self)@ == model::error_sent(old(self)@, stream_id.value(), status@),
            final(self)@.conn.ingress == old(self)@.conn.ingress,
            final(self).probed() == old(self).probed(),
    {
        reveal(model::error_sent);
        let ghost before = self@;
        let ghost id = stream_id.value();
        proof {
            lemma_bare_fields(status@);
            conn_model::lemma_sending_keeps_ingress(before.conn, id);
        }
        self.calls.remove(stream_id);
        let _ = self.live_routes.release(stream_id);
        let none: Metadata = Metadata::new();
        if let Ok(block) = HeaderBlock::for_response(&none) {
            let fields = block.as_h2();
            if self.h2.send_response(stream_id, fields.as_slice(), false).is_err() {
                proof {
                    conn_model::lemma_sending_keeps_ingress(self.h2@, id);
                }
                let _ = self.h2.reset_stream(stream_id, ErrorCode::InternalError);
                return;
            }
        }
        proof {
            conn_model::lemma_sending_keeps_ingress(self.h2@, id);
        }
        if let Ok(block) = HeaderBlock::for_trailers(&status, &none) {
            let fields = block.as_h2();
            let _ = self.h2.send_trailers_fields(stream_id, fields.as_slice());
        }
    }

    /// Keeps a piece of an answer until it can be sent, or tells the failure to keep it.
    pub fn enqueue_reply(&mut self, stream_id: StreamId, reply: StreamReply)
        requires
            old(self).wf(),
        ensures
            final(self).wf(),
            exists|place: bool|
                final(self)@ == #[trigger] model::replied(
                    old(self)@,
                    stream_id.value(),
                    reply@,
                    place,
                ),
            final(self)@.conn.ingress == old(self)@.conn.ingress,
            final(self).probed() == old(self).probed(),
    {
        let ghost before = self@;
        let ghost id = stream_id.value();
        let ghost view = reply@;
        let done = self.calls.enqueue(stream_id, reply);
        proof {
            let place = choose|place: bool|
                outcome(
                    #[trigger] model::enqueued(before.calls, id, view, place),
                    self@.calls,
                    done,
                );
            let _ = model::replied(before, id, view, place);
            assert(self@ =~= ServerView { calls: self@.calls, ..before });
        }
        if let Err(status) = done {
            self.send_error(stream_id, status);
        }
    }

    /// Keeps a whole answer until it can be sent.
    pub fn enqueue_response(&mut self, stream_id: StreamId, response: Response)
        requires
            old(self).wf(),
        ensures
            final(self).wf(),
            exists|place: bool|
                final(self)@ == #[trigger] model::replied(
                    old(self)@,
                    stream_id.value(),
                    model::whole(response@),
                    place,
                ),
            final(self)@.conn.ingress == old(self)@.conn.ingress,
            final(self).probed() == old(self).probed(),
    {
        let ghost view = response@;
        let Response { metadata, messages, trailers, status } = response;
        let reply = StreamReply { metadata, messages, trailers, status: Some(status) };
        assert(reply@ =~= model::whole(view));
        self.enqueue_reply(stream_id, reply);
    }

    /// Goes once round the calls that have something to send.
    pub fn drive_pending(&mut self)
        requires
            old(self).wf(),
        ensures
            final(self).wf(),
            final(self)@ == model::pumped(old(self)@),
            final(self)@.conn.ingress == old(self)@.conn.ingress,
            final(self).probed() == old(self).probed(),
    {
        proof {
            lemma_flushing_keeps_ingress(self@.calls, self@.conn, self@.calls.queue.len());
        }
        self.calls.drive(&mut self.h2);
    }

    /// Takes up to `limit` bytes to be written. The result says how many there are, and whether
    /// the connection is to be closed after them.
    pub fn flush(&mut self, limit: usize, out: &mut Vec<u8>, close_after: bool) -> (r: (
        usize,
        bool,
    ))
        requires
            old(self).wf(),
        ensures
            final(self).wf(),
            final(self).probed() == old(self).probed(),
            ({
                let e = old(self)@.conn.egress;
                let n: nat = if e.first_len() == 0 {
                    0
                } else if limit < e.ready() {
                    limit as nat
                } else {
                    e.ready()
                };
                &&& r.0 == n
                &&& final(out)@ == old(out)@ + e.bytes.subrange(0, n as int)
                &&& final(self)@ == (if e.first_len() == 0 {
                    old(self)@
                } else {
                    ServerView {
                        conn: ConnView { egress: e.drained(n as int), ..old(self)@.conn },
                        ..old(self)@
                    }
                })
                &&& r.1 == (close_after && final(self)@.conn.egress.first_len() == 0)
            }),
    {
        let ghost before = self@;
        let ghost had = out@;
        if self.h2.outbound().len() == 0 {
            assert(before.conn.egress.bytes.subrange(0, 0) =~= Seq::<u8>::empty());
            assert(out@ =~= had + Seq::<u8>::empty());
            return (0, close_after);
        }
        let n: usize = self.h2.drain_into(limit, out);
        let close: bool = close_after && self.h2.outbound().len() == 0;
        (n, close)
    }
}

impl Default for ConnState {
    fn default() -> (r: Self)
        ensures
            r.wf(),
            r@ == initial(limits::default_limits()),
            !r.probed(),
    {
        let limits = ValidatedLimits::default();
        ConnState::with_limits(&limits)
    }
}

/// What is done with bytes from a peer: they are answered as a plain request, or what is to be
/// sent is sent, and then perhaps the connection is closed.
#[derive(Copy, Clone, Debug, PartialEq, Eq, Structural)]
pub enum Action {
    Plain,
    Flush { close_after: bool },
}

/// A server, with who answers its requests.
pub struct App<H> {
    handler: H,
    config: ValidatedLimits,
    liveness_fallback: bool,
}

/// Nothing that a handler said.
spec fn nothing_said() -> Said {
    Said {
        mode: StreamMode::Buffered,
        reply: reply::silent(None),
        routes: RoutesView { routes: Map::empty(), capacity: 0 },
        place: false,
    }
}

impl<H: Handler<()>> App<H> {
    pub closed spec fn limits(&self) -> Limits {
        self.config@
    }

    pub closed spec fn handler_view(&self) -> H {
        self.handler
    }

    /// Whether plain requests are answered too.
    pub closed spec fn falls_back(&self) -> bool {
        self.liveness_fallback
    }

    pub fn new(handler: H) -> (r: Self)
        ensures
            r.limits() == limits::default_limits(),
            r.handler_view() == handler,
            !r.falls_back(),
    {
        App::with_config(handler, ValidatedLimits::default())
    }

    pub fn with_config(handler: H, config: ValidatedLimits) -> (r: Self)
        ensures
            r.limits() == config@,
            r.handler_view() == handler,
            !r.falls_back(),
    {
        App { handler, config, liveness_fallback: false }
    }

    /// Answers plain requests too, or no longer.
    pub fn set_liveness_fallback(&mut self, on: bool)
        ensures
            final(self).falls_back() == on,
            final(self).limits() == old(self).limits(),
            final(self).handler_view() == old(self).handler_view(),
    {
        self.liveness_fallback = on;
    }

    pub fn handler(&self) -> (r: &H)
        ensures
            *r == self.handler_view(),
    {
        &self.handler
    }

    pub fn handler_mut(&mut self) -> (r: &mut H)
        ensures
            *r == old(self).handler_view(),
            final(self).handler_view() == *final(r),
            final(self).limits() == old(self).limits(),
            final(self).falls_back() == old(self).falls_back(),
    {
        &mut self.handler
    }

    /// The state of a new connection.
    pub fn connection(&self) -> (r: ConnState)
        ensures
            r.wf(),
            r@ == initial(self.limits()),
            r.probed() == !self.falls_back(),
    {
        let mut state = ConnState::with_limits(&self.config);
        state.probed = !self.liveness_fallback;
        state
    }

    /// The start of a request.
    fn headers(&mut self, state: &mut ConnState, stream_id: StreamId, fields: &[OwnedHeader])
        requires
            old(state).wf(),
        ensures
            final(state).wf(),
            final(self).limits() == old(self).limits(),
            final(self).falls_back() == old(self).falls_back(),
            exists|said: Said|
                final(state)@ == #[trigger] model::head_served(
                    old(state)@,
                    stream_id.value(),
                    hpack::fields(fields@),
                    old(self).limits(),
                    said,
                ) && voices::head_told(
                    old(state)@,
                    stream_id.value(),
                    hpack::fields(fields@),
                    said,
                    old(self).handler_view(),
                    final(self).handler_view(),
                ),
            final(state)@.conn.ingress == old(state)@.conn.ingress,
            final(state).probed() == old(state).probed(),
    {
        let ghost before = state@;
        let ghost id = stream_id.value();
        let ghost list = hpack::fields(fields@);
        let ghost l = self.limits();
        let ghost asked = self.handler_view();
        proof {
            let _ = model::head_served(before, id, list, l, nothing_said());
        }
        let head: RequestHead = match RequestHead::parse_h2(fields) {
            Ok(head) => head,
            Err(status) => {
                state.send_error(stream_id, status);
                return;
            },
        };
        let mut reply = StreamReply::new();
        let mut context: () = ();
        let mode: StreamMode = self.handler.start(
            &mut context,
            &mut state.live_routes,
            stream_id,
            &head,
            &mut reply,
        );
        let ghost view = reply@;
        let ghost routes = state.live_routes@;
        let max_message_len: usize = self.config.limits().max_message_len;
        let ghost heard = state@;
        assert(heard =~= ServerView { routes, ..before });
        if !state.calls.insert(stream_id, head, mode, max_message_len) {
            proof {
                let said = Said { mode, reply: view, routes, place: false };
                let _ = model::head_served(before, id, list, l, said);
                assert(voices::head_told(before, id, list, said, asked, self.handler_view()));
                assert(state@ =~= ServerView { calls: state@.calls, ..heard });
            }
            state.send_error(
                stream_id,
                Status::new(Code::ResourceExhausted, "too many in-flight streams"),
            );
            return;
        }
        let ghost open = state@;
        assert(open =~= ServerView { calls: open.calls, ..heard });
        state.enqueue_reply(stream_id, reply);
        proof {
            let place = choose|place: bool|
                state@ == #[trigger] model::replied(open, id, view, place);
            let said = Said { mode, reply: view, routes, place };
            let _ = model::head_served(before, id, list, l, said);
            assert(voices::head_told(before, id, list, said, asked, self.handler_view()));
        }
    }

    /// The fields at the end of a request.
    fn trailers(&mut self, state: &mut ConnState, stream_id: StreamId, fields: &[OwnedHeader])
        requires
            old(state).wf(),
        ensures
            final(state).wf(),
            *final(self) == *old(self),
            final(state)@ == model::trailers_served(
                old(state)@,
                stream_id.value(),
                hpack::fields(fields@),
            ),
            final(state)@.conn.ingress == old(state)@.conn.ingress,
            final(state).probed() == old(state).probed(),
    {
        match RequestHead::parse_h2_trailers(fields) {
            Ok(metadata) => state.calls.set_trailers(stream_id, metadata),
            Err(status) => state.send_error(stream_id, status),
        }
    }

    /// A message of a request; the result says whether the rest is read.
    fn take_message(
        &mut self,
        state: &mut ConnState,
        stream_id: StreamId,
        message: MessageFrame,
        mode: StreamMode,
    ) -> (r: bool)
        requires
            old(state).wf(),
            old(state)@.calls.stream(stream_id.value()) is Some,
            old(state)@.calls.stream(stream_id.value())->0.mode == mode,
        ensures
            final(state).wf(),
            final(self).limits() == old(self).limits(),
            final(self).falls_back() == old(self).falls_back(),
            exists|said: Said|
                (final(state)@, r) == #[trigger] model::message_served(
                    old(state)@,
                    stream_id.value(),
                    message@,
                    old(self).limits(),
                    said,
                ) && voices::message_told(
                    old(state)@,
                    stream_id.value(),
                    message@,
                    said,
                    old(self).handler_view(),
                    final(self).handler_view(),
                ),
            final(state)@.conn.ingress == old(state)@.conn.ingress,
            final(state).probed() == old(state).probed(),
    {
        let ghost before = state@;
        let ghost id = stream_id.value();
        let ghost m = message@;
        let ghost l = self.limits();
        let ghost asked = self.handler_view();
        proof {
            let _ = model::message_served(before, id, m, l, nothing_said());
        }
        if mode == StreamMode::Live {
            if message.compressed {
                state.send_error(
                    stream_id,
                    Status::new(Code::Unimplemented, "compressed messages are not supported"),
                );
                return false;
            }
            let mut reply = StreamReply::new();
            let mut context: () = ();
            self.handler.message(
                &mut context,
                &mut state.live_routes,
                stream_id,
                message,
                &mut reply,
            );
            let ghost view = reply@;
            let ghost routes = state.live_routes@;
            let ghost heard = state@;
            assert(heard =~= ServerView { routes, ..before });
            state.enqueue_reply(stream_id, reply);
            proof {
                let place = choose|place: bool|
                    state@ == #[trigger] model::replied(heard, id, view, place);
                let said = Said { mode, reply: view, routes, place };
                let _ = model::message_served(before, id, m, l, said);
                assert(voices::message_told(before, id, m, said, asked, self.handler_view()));
            }
            state.drive_pending();
            return true;
        }
        let limits: Limits = self.config.limits();
        let kept: bool = state.calls.push_message(stream_id, message, &limits);
        proof {
            let place = choose|place: bool|
                (match #[trigger] model::message_kept(before.calls, id, m, l, place) {
                    Some(v) => kept && state@.calls == v,
                    None => !kept && state@.calls == before.calls,
                });
            let said = Said { place, ..nothing_said() };
            let _ = model::message_served(before, id, m, l, said);
            assert(state@ =~= ServerView { calls: state@.calls, ..before });
        }
        if !kept {
            state.send_error(
                stream_id,
                Status::new(Code::ResourceExhausted, "stream buffer limit exceeded"),
            );
        }
        kept
    }

    /// Bytes of a request.
    fn data(&mut self, state: &mut ConnState, stream_id: StreamId, data: DataPayload)
        requires
            old(state).wf(),
        ensures
            final(state).wf(),
            final(self).limits() == old(self).limits(),
            final(self).falls_back() == old(self).falls_back(),
            exists|frag: bool, said: Seq<Said>, handlers: Seq<H>|
                final(state)@ == model::data_served(
                    old(state)@,
                    stream_id.value(),
                    data@,
                    old(self).limits(),
                    frag,
                    said,
                ) && #[trigger] voices::data_told(
                    old(state)@,
                    stream_id.value(),
                    data@,
                    old(self).limits(),
                    frag,
                    said,
                    old(self).handler_view(),
                    handlers,
                    final(self).handler_view(),
                ),
            final(state)@.conn.ingress == old(state)@.conn.ingress,
            final(state).probed() == old(state).probed(),
    {
        let ghost before = state@;
        let ghost id = stream_id.value();
        let ghost all = data@;
        let ghost l = self.limits();
        let ghost first = self.handler_view();
        let ghost mut said: Seq<Said> = Seq::empty();
        let ghost mut handlers: Seq<H> = Seq::empty();
        let mut input: DataChunk = DataChunk::new(data);
        proof {
            lemma_leads_start(before, id, all, l, first);
        }
        while !input.is_empty()
            invariant
                state.wf(),
                first == old(self).handler_view(),
                before == old(state)@,
                l == old(self).limits(),
                self.limits() == l,
                self.falls_back() == old(self).falls_back(),
                id == stream_id.value(),
                all == data@,
                state@.conn.ingress == before.conn.ingress,
                state.probed() == old(state).probed(),
                leads(
                    Told { v: before, rest: all, handler: first },
                    id,
                    l,
                    said,
                    handlers,
                    Told { v: state@, rest: input@, handler: self.handler_view() },
                ),
            decreases input@.len(),
        {
            let ghost start = Told { v: before, rest: all, handler: first };
            let ghost at = Told { v: state@, rest: input@, handler: self.handler_view() };
            let mode: StreamMode = match state.calls.mode(stream_id) {
                Some(mode) => mode,
                None => {
                    proof {
                        lemma_leads_end(start, id, l, said, handlers, at, true);
                    }
                    state.send_error(
                        stream_id,
                        Status::new(Code::Internal, "DATA before gRPC headers"),
                    );
                    return;
                },
            };
            let needs: bool = state.calls.needs_place(stream_id, &input);
            let place: Option<Permit> = if needs {
                state.message_pool.try_acquire()
            } else {
                None
            };
            let ghost granted = place is Some;
            let ghost asked = state@;
            let ghost s = at.v.calls.stream(id)->0;
            proof {
                frame::lemma_places(s.deframer, at.rest);
                assert(frame::deframed(s.deframer, at.rest, at.v.fragments.gives(granted))
                    == frame::deframed(s.deframer, at.rest, granted));
                assert(asked =~= ServerView {
                    fragments: frame::asked_for(at.v.fragments, s.deframer, at.rest, granted),
                    ..at.v
                });
                if frame::deframed(s.deframer, at.rest, granted).2 is Ok {
                    frame::lemma_read_on(s.deframer, at.rest, granted);
                }
            }
            let next = state.calls.next_message(stream_id, &mut input, place);
            let ghost read = state@;
            match next {
                Err(error) => {
                    proof {
                        lemma_error_after_removal(asked, read, id, s, at.rest, granted, error);
                        lemma_leads_end(start, id, l, said, handlers, at, granted);
                    }
                    state.send_error(stream_id, Status::from_frame_err(error));
                    return;
                },
                Ok(None) => {
                    proof {
                        lemma_leads_end(start, id, l, said, handlers, at, granted);
                    }
                    state.drive_pending();
                    return;
                },
                Ok(Some(message)) => {
                    let ghost m = message@;
                    let more_follow: bool = self.take_message(state, stream_id, message, mode);
                    let ghost next = Told {
                        v: state@,
                        rest: input@,
                        handler: self.handler_view(),
                    };
                    let ghost heard = choose|heard: Said|
                        (next.v, more_follow) == #[trigger] model::message_served(
                            read,
                            id,
                            m,
                            l,
                            heard,
                        ) && voices::message_told(
                            read,
                            id,
                            m,
                            heard,
                            at.handler,
                            next.handler,
                        );
                    proof {
                        assert(!needs);
                        assert(read =~= voices::read_on(
                            at.v,
                            id,
                            s,
                            frame::deframed(s.deframer, at.rest, granted).0,
                            at.v.fragments,
                        ));
                        lemma_leads_on(
                            start,
                            id,
                            l,
                            said,
                            handlers,
                            at,
                            s,
                            m,
                            heard,
                            next,
                            more_follow,
                        );
                        said = said.push(heard);
                        handlers = handlers.push(next.handler);
                    }
                    if !more_follow {
                        return;
                    }
                },
            }
        }
        proof {
            lemma_leads_end(
                Told { v: before, rest: all, handler: first },
                id,
                l,
                said,
                handlers,
                Told { v: state@, rest: input@, handler: self.handler_view() },
                true,
            );
        }
        state.drive_pending();
    }

    /// The end of a request.
    fn finish_stream(&mut self, state: &mut ConnState, stream_id: StreamId)
        requires
            old(state).wf(),
        ensures
            final(state).wf(),
            final(self).limits() == old(self).limits(),
            final(self).falls_back() == old(self).falls_back(),
            exists|end: Ended|
                final(state)@ == #[trigger] model::end_served(
                    old(state)@,
                    stream_id.value(),
                    end,
                ) && voices::end_told(
                    old(state)@,
                    stream_id.value(),
                    end,
                    old(self).handler_view(),
                    final(self).handler_view(),
                ),
            final(state)@.conn.ingress == old(state)@.conn.ingress,
            final(state).probed() == old(state).probed(),
    {
        let ghost before = state@;
        let ghost id = stream_id.value();
        let ghost start = self.handler_view();
        let ghost unsaid = Ended {
            said: nothing_said(),
            outcome: Err::<ResponseView, StatusView>(reply::okay()),
        };
        proof {
            let _ = model::end_served(before, id, unsaid);
        }
        let stream: TakenStream = match state.calls.take_stream(stream_id) {
            Some(stream) => stream,
            None => return,
        };
        let ghost open = state@;
        assert(open =~= ServerView { calls: model::taken(before.calls, id), ..before });
        let TakenStream { head, messages, trailers, mode } = stream;
        if mode == StreamMode::Live {
            let mut reply = StreamReply::new();
            let mut context: () = ();
            self.handler.trailers(
                &mut context,
                &mut state.live_routes,
                stream_id,
                trailers,
                &mut reply,
            );
            let ghost view = reply@;
            let ghost routes = state.live_routes@;
            if reply.status.is_none() {
                reply.status = Some(Status::ok());
            }
            assert(reply@ =~= model::ending(view));
            let ghost heard = state@;
            assert(heard =~= ServerView { routes, ..open });
            state.enqueue_reply(stream_id, reply);
            proof {
                let place = choose|place: bool|
                    state@ == #[trigger] model::replied(heard, id, model::ending(view), place);
                let end = Ended {
                    said: Said { mode, reply: view, routes, place },
                    ..unsaid
                };
                let _ = model::end_served(before, id, end);
                assert(voices::end_told(before, id, end, start, self.handler_view()));
            }
            state.drive_pending();
            return;
        }
        let ghost whole = head;
        let given = dispatch_request(&mut self.handler, stream_id, head, messages, trailers);
        let ghost outcome = voices::outcome_view(given);
        proof {
            let s = before.calls.stream(id)->0;
            assert(limits::dispatched::<H>(
                start,
                id,
                whole,
                s.messages,
                s.trailers,
                self.handler_view(),
                given,
            ));
            assert(voices::put(id, s, start, self.handler_view(), outcome));
        }
        match given {
            Ok(response) => {
                let ghost view = response@;
                state.enqueue_response(stream_id, response);
                proof {
                    let place = choose|place: bool|
                        state@ == #[trigger] model::replied(open, id, model::whole(view), place);
                    let end = Ended { said: Said { place, ..nothing_said() }, outcome };
                    let _ = model::end_served(before, id, end);
                }
                state.drive_pending();
            },
            Err(status) => {
                proof {
                    let end = Ended { said: nothing_said(), outcome };
                    let _ = model::end_served(before, id, end);
                }
                state.send_error(stream_id, status);
            },
        }
    }
}

impl<H: Handler<()>> App<H> {
    /// Deals with an event of the connection.
    #[verifier::spinoff_prover]
    #[verifier::rlimit(60)]
    fn h2_event(&mut self, state: &mut ConnState, event: Event)
        requires
            old(state).wf(),
            old(state).h2.lends(event),
        ensures
            final(state).wf(),
            final(self).limits() == old(self).limits(),
            final(self).falls_back() == old(self).falls_back(),
            exists|script: Script, voice: Voice<H>| #[trigger]
                voices::event_dealt(
                    model::freed(old(state)@, event@),
                    event@,
                    old(self).limits(),
                    script,
                    old(self).handler_view(),
                    voice,
                    final(state)@,
                    final(self).handler_view(),
                ),
            final(state)@.conn.ingress == old(state)@.conn.ingress.keeping_data(event@),
            final(state).probed() == old(state).probed(),
    {
        let ghost first = self.handler_view();
        let ghost l = self.limits();
        let ghost view = event@;
        let ghost before = model::freed(state@, view);
        let ghost unsaid = Ended {
            said: nothing_said(),
            outcome: Err::<ResponseView, StatusView>(reply::okay()),
        };
        let ghost quiet = Script {
            start: nothing_said(),
            frag: false,
            messages: Seq::empty(),
            end: unsaid,
        };
        match event {
            Event::Headers { stream_id, headers, end_stream, trailing } => {
                let ghost id = stream_id.value();
                let ghost fields = headers@;
                let ghost mut start: Said = nothing_said();
                let list: Vec<OwnedHeader> = state.h2.reclaim_headers(headers);
                assert(state@ =~= before);
                if trailing {
                    self.trailers(state, stream_id, list.as_slice());
                } else {
                    self.headers(state, stream_id, list.as_slice());
                    proof {
                        start = choose|said: Said|
                            state@ == #[trigger] model::head_served(before, id, fields, l, said)
                                && voices::head_told(
                                before,
                                id,
                                fields,
                                said,
                                first,
                                self.handler_view(),
                            );
                    }
                }
                let ghost mid = state@;
                let ghost open = self.handler_view();
                let ghost mut end: Ended = unsaid;
                if end_stream {
                    self.finish_stream(state, stream_id);
                    proof {
                        end = choose|end: Ended|
                            state@ == #[trigger] model::end_served(mid, id, end)
                                && voices::end_told(mid, id, end, open, self.handler_view());
                    }
                }
                proof {
                    let voice = Voice { messages: Seq::empty(), open, after: self.handler_view() };
                    let script = Script { start, end, ..quiet };
                    assert(voices::event_dealt(
                        before,
                        view,
                        l,
                        script,
                        first,
                        voice,
                        state@,
                        self.handler_view(),
                    )) by {
                        reveal(model::event_served);
                        reveal(voices::event_told);
                    }
                }
            },
            Event::Data { stream_id, data, end_stream } => {
                let ghost id = stream_id.value();
                let ghost all = data@;
                self.data(state, stream_id, data);
                let ghost mid = state@;
                let ghost open = self.handler_view();
                let ghost (frag, messages, handlers) = choose|
                    frag: bool,
                    said: Seq<Said>,
                    handlers: Seq<H>,
                |
                    mid == model::data_served(before, id, all, l, frag, said)
                        && #[trigger] voices::data_told(
                        before,
                        id,
                        all,
                        l,
                        frag,
                        said,
                        first,
                        handlers,
                        open,
                    );
                let ghost mut end: Ended = unsaid;
                if end_stream {
                    self.finish_stream(state, stream_id);
                    proof {
                        end = choose|end: Ended|
                            state@ == #[trigger] model::end_served(mid, id, end)
                                && voices::end_told(mid, id, end, open, self.handler_view());
                    }
                }
                proof {
                    let voice = Voice { messages: handlers, open, after: self.handler_view() };
                    let script = Script { frag, messages, end, ..quiet };
                    assert(voices::event_dealt(
                        before,
                        view,
                        l,
                        script,
                        first,
                        voice,
                        state@,
                        self.handler_view(),
                    )) by {
                        reveal(model::event_served);
                        reveal(voices::event_told);
                    }
                }
            },
            Event::StreamReset { stream_id, error } => {
                state.calls.remove(stream_id);
                let _ = state.live_routes.release(stream_id);
                let ghost voice = Voice { messages: Seq::empty(), open: first, after: first };
                assert(voices::event_dealt(before, view, l, quiet, first, voice, state@, first))
                    by {
                    reveal(model::event_served);
                    reveal(voices::event_told);
                    assert(state@ =~= ServerView {
                        calls: state@.calls,
                        routes: state@.routes,
                        ..before
                    });
                }
            },
            other => {
                state.h2.reclaim(other);
                assert(state@ =~= before);
                let ghost voice = Voice { messages: Seq::empty(), open: first, after: first };
                assert(voices::event_dealt(before, view, l, quiet, first, voice, state@, first))
                    by {
                    reveal(model::event_served);
                    reveal(voices::event_told);
                }
            },
        }
    }

    /// Deals with all events of the connection; says how many there were.
    pub fn drain_events(&mut self, state: &mut ConnState) -> (r: usize)
        requires
            old(state).wf(),
        ensures
            final(state).wf(),
            final(self).limits() == old(self).limits(),
            final(self).falls_back() == old(self).falls_back(),
            r == old(state)@.conn.ingress.events.len(),
            exists|scripts: Seq<Script>, voices: Seq<Voice<H>>| #[trigger]
                voices::all_dealt(
                    old(state)@,
                    old(self).limits(),
                    scripts,
                    old(self).handler_view(),
                    voices,
                    final(state)@,
                    final(self).handler_view(),
                ),
            final(state)@.conn.ingress.events.len() == 0,
            final(state)@.conn.ingress.input == old(state)@.conn.ingress.input,
            places::lent_headers(final(state)@.conn.ingress) == places::lent_headers(
                old(state)@.conn.ingress,
            ),
            final(state).probed() == old(state).probed(),
    {
        let ghost before = state@;
        let ghost first = self.handler_view();
        let ghost l = self.limits();
        let ghost total = before.conn.ingress.events.len();
        let ghost mut scripts: Seq<Script> = Seq::empty();
        let ghost mut heard: Seq<Voice<H>> = Seq::empty();
        let all: usize = state.h2.event_count();
        let mut count: usize = 0;
        proof {
            assert forall|more: Seq<Script>|
                model::handled(before, total, l, scripts + more) == #[trigger] model::handled(
                    state@,
                    total,
                    l,
                    more,
                ) by {
                assert(scripts + more =~= more);
            }
            assert forall|more: Seq<Script>, then: Seq<Voice<H>>, after: H| #[trigger]
                voices::all_told(state@, total, l, more, self.handler_view(), then, after) implies
                voices::all_told(before, total, l, scripts + more, first, heard + then, after) by {
                assert(scripts + more =~= more);
                assert(heard + then =~= then);
            }
        }
        while count < all
            invariant
                state.wf(),
                before == old(state)@,
                first == old(self).handler_view(),
                l == old(self).limits(),
                self.limits() == l,
                self.falls_back() == old(self).falls_back(),
                total == before.conn.ingress.events.len(),
                count <= all,
                all == total,
                state.probed() == old(state).probed(),
                state@.conn.ingress.events.len() == total - count,
                state@.conn.ingress.input == before.conn.ingress.input,
                places::lent_headers(state@.conn.ingress) == places::lent_headers(before.conn.ingress),
                forall|more: Seq<Script>|
                    model::handled(before, total, l, scripts + more) == #[trigger] model::handled(
                        state@,
                        (total - count) as nat,
                        l,
                        more,
                    ),
                forall|more: Seq<Script>, then: Seq<Voice<H>>, after: H| #[trigger]
                    voices::all_told(
                        state@,
                        (total - count) as nat,
                        l,
                        more,
                        self.handler_view(),
                        then,
                        after,
                    ) ==> voices::all_told(
                        before,
                        total,
                        l,
                        scripts + more,
                        first,
                        heard + then,
                        after,
                    ),
            decreases all - count,
        {
            let ghost at = state@;
            let ghost stood = self.handler_view();
            let polled = state.h2.poll_event();
            assert(polled is Some);
            if let Some(event) = polled {
                proof {
                    places::law_places_come_back(at.conn.ingress);
                }
                let ghost seen = model::polled(at);
                assert(model::freed(state@, at.conn.ingress.events[0]) =~= seen);
                self.h2_event(state, event);
                proof {
                    let stands = self.handler_view();
                    let next = state@;
                    let (script, voice) = choose|script: Script, voice: Voice<H>| #[trigger]
                        voices::event_dealt(
                            seen,
                            at.conn.ingress.events[0],
                            l,
                            script,
                            stood,
                            voice,
                            next,
                            stands,
                        );
                    assert forall|more: Seq<Script>|
                        model::handled(before, total, l, scripts.push(script) + more)
                            == #[trigger] model::handled(
                            next,
                            (total - count - 1) as nat,
                            l,
                            more,
                        ) by {
                        let longer = seq![script] + more;
                        assert(scripts.push(script) + more =~= scripts + longer);
                        assert(longer.drop_first() =~= more);
                        assert(longer[0] == script);
                        assert(model::handled(before, total, l, scripts + longer)
                            == model::handled(at, (total - count) as nat, l, longer));
                    }
                    assert forall|more: Seq<Script>, then: Seq<Voice<H>>, after: H| #[trigger]
                        voices::all_told(
                            next,
                            (total - count - 1) as nat,
                            l,
                            more,
                            stands,
                            then,
                            after,
                        ) implies voices::all_told(
                        before,
                        total,
                        l,
                        scripts.push(script) + more,
                        first,
                        heard.push(voice) + then,
                        after,
                    ) by {
                        let longer = seq![script] + more;
                        let later = seq![voice] + then;
                        assert(scripts.push(script) + more =~= scripts + longer);
                        assert(heard.push(voice) + then =~= heard + later);
                        assert(longer.drop_first() =~= more);
                        assert(later.drop_first() =~= then);
                        assert(voices::all_told(
                            at,
                            (total - count) as nat,
                            l,
                            longer,
                            stood,
                            later,
                            after,
                        ));
                    }
                    scripts = scripts.push(script);
                    heard = heard.push(voice);
                }
            }
            count = count + 1;
        }
        proof {
            let none = Seq::<Script>::empty();
            let nobody = Seq::<Voice<H>>::empty();
            assert(scripts + none =~= scripts);
            assert(heard + nobody =~= heard);
            assert(model::handled(state@, (total - count) as nat, l, none) == state@);
            assert(model::handled(before, total, l, scripts + none) == state@);
            assert(voices::all_told(
                state@,
                (total - count) as nat,
                l,
                none,
                self.handler_view(),
                nobody,
                self.handler_view(),
            ));
            assert(voices::all_told(
                before,
                total,
                l,
                scripts + none,
                first,
                heard + nobody,
                self.handler_view(),
            ));
            assert(voices::all_dealt(before, l, scripts, first, heard, state@, self.handler_view()));
            assert(state@.conn.ingress.events =~= Seq::<EventView>::empty());
        }
        count
    }

    /// Deals with events and sends what waits, for as long as the connection had to stop for
    /// want of room and gets on; the result is the failure at which it stopped.
    fn drive(&mut self, state: &mut ConnState, result: Result<(), ConnError>) -> (r: Option<
        ConnError,
    >)
        requires
            old(state).wf(),
        ensures
            final(state).wf(),
            final(self).limits() == old(self).limits(),
            final(self).falls_back() == old(self).falls_back(),
            final(state).probed() == old(state).probed(),
            places::lent_headers(final(state)@.conn.ingress) == places::lent_headers(
                old(state)@.conn.ingress,
            ),
            exists|rounds: Seq<Round>, stages: Seq<Stage<H>>| #[trigger]
                voices::run_dealt(
                    old(state)@,
                    result,
                    old(self).limits(),
                    rounds,
                    old(self).handler_view(),
                    stages,
                    final(state)@,
                    r,
                    final(self).handler_view(),
                ),
    {
        let ghost before = state@;
        let ghost first = self.handler_view();
        let ghost l = self.limits();
        let ghost mut rounds: Seq<Round> = Seq::empty();
        let ghost mut stages: Seq<Stage<H>> = Seq::empty();
        let mut current: Result<(), ConnError> = result;
        proof {
            assert forall|more: Seq<Round>|
                model::driven(before, result, l, rounds + more) == #[trigger] model::driven(
                    state@,
                    current,
                    l,
                    more,
                ) by {
                assert(rounds + more =~= more);
            }
            assert forall|more: Seq<Round>, then: Seq<Stage<H>>, after: H| #[trigger]
                voices::run_told(state@, current, l, more, self.handler_view(), then, after) implies
                voices::run_told(
                before,
                result,
                l,
                rounds + more,
                first,
                stages + then,
                after,
            ) by {
                assert(rounds + more =~= more);
                assert(stages + then =~= then);
            }
        }
        loop
            invariant
                state.wf(),
                before == old(state)@,
                first == old(self).handler_view(),
                l == old(self).limits(),
                self.limits() == l,
                self.falls_back() == old(self).falls_back(),
                state.probed() == old(state).probed(),
                places::lent_headers(state@.conn.ingress) == places::lent_headers(before.conn.ingress),
                forall|more: Seq<Round>|
                    model::driven(before, result, l, rounds + more) == #[trigger] model::driven(
                        state@,
                        current,
                        l,
                        more,
                    ),
                forall|more: Seq<Round>, then: Seq<Stage<H>>, after: H| #[trigger]
                    voices::run_told(state@, current, l, more, self.handler_view(), then, after)
                        ==> voices::run_told(
                        before,
                        result,
                        l,
                        rounds + more,
                        first,
                        stages + then,
                        after,
                    ),
            decreases
                    state@.conn.ingress.input.bytes().len(),
                    state@.conn.ingress.events.len(),
        {
            let ghost at = state@;
            let ghost stood = self.handler_view();
            let ghost count = at.conn.ingress.events.len();
            let n: usize = self.drain_events(state);
            let ghost (scripts, heard) = choose|scripts: Seq<Script>, heard: Seq<Voice<H>>|
                #[trigger] voices::all_dealt(
                    at,
                    l,
                    scripts,
                    stood,
                    heard,
                    state@,
                    self.handler_view(),
                );
            state.drive_pending();
            let ghost after = state@;
            let ghost quiet = Round { scripts, frames: Seq::empty() };
            let ghost stage = Stage { voices: heard, after: self.handler_view() };
            proof {
                assert(seq![quiet][0] == quiet);
                assert(model::driven(before, result, l, rounds + seq![quiet]) == model::driven(
                    at,
                    current,
                    l,
                    seq![quiet],
                ));
            }
            let mut stop: Option<Option<ConnError>> = None;
            match current {
                Ok(_) => {
                    stop = Some(None);
                },
                Err(failure) => {
                    let again: bool = match failure {
                        ConnError::Overload => n != 0,
                        _ => false,
                    };
                    if !again {
                        stop = Some(Some(failure));
                    }
                },
            }
            if let Some(r) = stop {
                proof {
                    assert(seq![stage][0] == stage);
                    assert(voices::run_told(
                        at,
                        current,
                        l,
                        seq![quiet],
                        stood,
                        seq![stage],
                        self.handler_view(),
                    ));
                    assert(voices::run_told(
                        before,
                        result,
                        l,
                        rounds + seq![quiet],
                        first,
                        stages + seq![stage],
                        self.handler_view(),
                    ));
                    assert(voices::run_dealt(
                        before,
                        result,
                        l,
                        rounds + seq![quiet],
                        first,
                        stages + seq![stage],
                        state@,
                        r,
                        self.handler_view(),
                    ));
                }
                return r;
            }
            let ghost tried = current;
            current = state.h2.resume();
            proof {
                role::lemma_server();
                let frames = choose|frames: Seq<Chance>|
                    (state.h2@, current) == #[trigger] conn_model::resumed(
                        after.conn,
                        ServerRole::IS_SERVER,
                        frames,
                    );
                let round = Round { scripts, frames };
                progress::law_events_cost_input(after.conn, true, frames);
                progress::law_no_place_is_lost(after.conn, true, Seq::empty(), frames);
                let next = state@;
                let stands = self.handler_view();
                assert(next =~= ServerView { conn: state.h2@, ..after });
                assert forall|more: Seq<Round>|
                    model::driven(before, result, l, rounds.push(round) + more)
                        == #[trigger] model::driven(next, current, l, more) by {
                    let longer = seq![round] + more;
                    assert(rounds.push(round) + more =~= rounds + longer);
                    assert(longer.drop_first() =~= more);
                    assert(longer[0] == round);
                    assert(model::driven(before, result, l, rounds + longer) == model::driven(
                        at,
                        tried,
                        l,
                        longer,
                    ));
                }
                assert forall|more: Seq<Round>, then: Seq<Stage<H>>, last: H| #[trigger]
                    voices::run_told(next, current, l, more, stands, then, last) implies
                    voices::run_told(
                    before,
                    result,
                    l,
                    rounds.push(round) + more,
                    first,
                    stages.push(stage) + then,
                    last,
                ) by {
                    let longer = seq![round] + more;
                    let later = seq![stage] + then;
                    assert(rounds.push(round) + more =~= rounds + longer);
                    assert(stages.push(stage) + then =~= stages + later);
                    assert(longer.drop_first() =~= more);
                    assert(later.drop_first() =~= then);
                    assert(voices::run_told(at, tried, l, longer, stood, later, last));
                }
                rounds = rounds.push(round);
                stages = stages.push(stage);
            }
        }
    }

    /// Takes bytes from the peer, and deals with what they bring; the result is the failure of
    /// the connection, if there is one.
    pub fn ingest(&mut self, state: &mut ConnState, bytes: &[u8]) -> (r: Option<ConnError>)
        requires
            old(state).wf(),
        ensures
            final(state).wf(),
            final(self).limits() == old(self).limits(),
            final(self).falls_back() == old(self).falls_back(),
            final(state).probed() == old(state).probed(),
            places::lent_headers(final(state)@.conn.ingress) == places::lent_headers(
                old(state)@.conn.ingress,
            ),
            model::at_end(old(state)@.conn) ==> r is None && final(state)@ == old(state)@
                && *final(self) == *old(self),
            !model::at_end(old(state)@.conn) ==> exists|
                chances: Seq<Chance>,
                rounds: Seq<Round>,
                stages: Seq<Stage<H>>,
            | #[trigger]
                voices::bytes_dealt(
                    old(state)@,
                    bytes@,
                    old(self).limits(),
                    chances,
                    rounds,
                    old(self).handler_view(),
                    stages,
                    final(state)@,
                    r,
                    final(self).handler_view(),
                ),
    {
        if state.h2.goaway_sent() || state.h2.goaway_received().is_some() {
            return None;
        }
        proof {
            role::lemma_server();
        }
        let ghost before = state@;
        let ghost first = self.handler_view();
        let ghost l = self.limits();
        let result = state.h2.ingest(bytes);
        let ghost mid = state@;
        assert(mid =~= ServerView { conn: mid.conn, ..before });
        let r = self.drive(state, result);
        proof {
            let chances = choose|chances: Seq<Chance>|
                (mid.conn, result) == #[trigger] conn_model::ingested(
                    before.conn,
                    true,
                    bytes@,
                    chances,
                );
            progress::law_no_place_is_lost(before.conn, true, bytes@, chances);
            let (rounds, stages) = choose|rounds: Seq<Round>, stages: Seq<Stage<H>>| #[trigger]
                voices::run_dealt(
                    mid,
                    result,
                    l,
                    rounds,
                    first,
                    stages,
                    state@,
                    r,
                    self.handler_view(),
                );
            assert(voices::bytes_dealt(
                before,
                bytes@,
                l,
                chances,
                rounds,
                first,
                stages,
                state@,
                r,
                self.handler_view(),
            ));
        }
        r
    }

    /// Bytes from a peer: the first of them are looked at where plain requests are answered too.
    /// A failure of the connection is told, and then it is closed.
    pub fn chunk(&mut self, state: &mut ConnState, bytes: &[u8]) -> (r: Action)
        requires
            old(state).wf(),
        ensures
            final(state).wf(),
            final(self).limits() == old(self).limits(),
            final(self).falls_back() == old(self).falls_back(),
            ({
                let v = old(state)@;
                let looks = old(self).falls_back() && !old(state).probed();
                &&& final(state).probed() == (old(state).probed() || looks)
                &&& if looks && !liveness::may_be_preface(bytes@) {
                    r == Action::Plain && final(state)@ == v && *final(self) == *old(self)
                } else if model::at_end(v.conn) {
                    r == (Action::Flush { close_after: v.conn.goaway_sent }) && final(state)@ == v
                        && *final(self) == *old(self)
                } else {
                    exists|
                        chances: Seq<Chance>,
                        rounds: Seq<Round>,
                        stages: Seq<Stage<H>>,
                        end: (ServerView, Option<ConnError>),
                    |
                        #[trigger] voices::bytes_dealt(
                            v,
                            bytes@,
                            old(self).limits(),
                            chances,
                            rounds,
                            old(self).handler_view(),
                            stages,
                            end.0,
                            end.1,
                            final(self).handler_view(),
                        ) && chunked(end, final(state)@, r)
                }
            }),
    {
        if self.liveness_fallback && !state.probed {
            state.probed = true;
            if Liveness::is_plain_request(bytes) {
                return Action::Plain;
            }
        }
        let ghost before = state@;
        let ghost first = self.handler_view();
        let ghost l = self.limits();
        let failed: Option<ConnError> = self.ingest(state, bytes);
        let ghost after = state@;
        let action: Action = match failed {
            Some(error) => {
                let code: ErrorCode = ErrorCode::from(&error);
                let nothing: Vec<u8> = Vec::new();
                assert(nothing@ =~= Seq::<u8>::empty());
                let _ = state.h2.goaway(code, nothing.as_slice());
                Action::Flush { close_after: true }
            },
            None => Action::Flush { close_after: state.h2.goaway_sent() },
        };
        proof {
            assert(state@ =~= model::given_up(after, failed));
            if !model::at_end(before.conn) {
                let (chances, rounds, stages) = choose|
                    chances: Seq<Chance>,
                    rounds: Seq<Round>,
                    stages: Seq<Stage<H>>,
                | #[trigger]
                    voices::bytes_dealt(
                        before,
                        bytes@,
                        l,
                        chances,
                        rounds,
                        first,
                        stages,
                        after,
                        failed,
                        self.handler_view(),
                    );
                let end = (after, failed);
                assert(voices::bytes_dealt(
                    before,
                    bytes@,
                    l,
                    chances,
                    rounds,
                    first,
                    stages,
                    end.0,
                    end.1,
                    self.handler_view(),
                ));
                assert(chunked(end, state@, action));
            }
        }
        action
    }
}

/// Whether a failure of the connection was told, and what is to be done with it.
pub open spec fn chunked(
    end: (ServerView, Option<ConnError>),
    after: ServerView,
    r: Action,
) -> bool {
    after == model::given_up(end.0, end.1) && r == (Action::Flush {
        close_after: end.1 is Some || after.conn.goaway_sent,
    })
}

/// How far a server has come with the bytes of a request: how it stands, what is left of the
/// bytes, and how its handler stands.
struct Told<H> {
    v: ServerView,
    rest: Seq<u8>,
    handler: H,
}

/// Whether what comes of the bytes at `start` is, once the handler was told of some messages,
/// what comes of those that are left at `at`. `said` is what it said of the messages, and
/// `handlers` how it stood after each.
#[verifier::opaque]
spec fn leads<H: Handler<()>>(
    start: Told<H>,
    id: u32,
    l: Limits,
    said: Seq<Said>,
    handlers: Seq<H>,
    at: Told<H>,
) -> bool {
    &&& forall|frag: bool, more: Seq<Said>|
        model::data_served(start.v, id, start.rest, l, frag, said + more)
            == #[trigger] model::data_served(at.v, id, at.rest, l, frag, more)
    &&& forall|frag: bool, more: Seq<Said>, then: Seq<H>, after: H| #[trigger]
        voices::data_told(at.v, id, at.rest, l, frag, more, at.handler, then, after)
            ==> voices::data_told(
            start.v,
            id,
            start.rest,
            l,
            frag,
            said + more,
            start.handler,
            handlers + then,
            after,
        )
}

proof fn lemma_leads_start<H: Handler<()>>(
    v: ServerView,
    id: u32,
    rest: Seq<u8>,
    l: Limits,
    handler: H,
)
    ensures
        leads(
            Told { v, rest, handler },
            id,
            l,
            Seq::empty(),
            Seq::empty(),
            Told { v, rest, handler },
        ),
{
    reveal(leads);
    let said = Seq::<Said>::empty();
    let handlers = Seq::<H>::empty();
    assert forall|frag: bool, more: Seq<Said>|
        model::data_served(v, id, rest, l, frag, said + more) == #[trigger] model::data_served(
            v,
            id,
            rest,
            l,
            frag,
            more,
        ) by {
        assert(said + more =~= more);
    }
    assert forall|frag: bool, more: Seq<Said>, then: Seq<H>, after: H| #[trigger]
        voices::data_told(v, id, rest, l, frag, more, handler, then, after) implies
        voices::data_told(
        v,
        id,
        rest,
        l,
        frag,
        said + more,
        handler,
        handlers + then,
        after,
    ) by {
        assert(said + more =~= more);
        assert(handlers + then =~= then);
    }
}

/// Where no further message comes, the handler is told of nothing more.
proof fn lemma_leads_end<H: Handler<()>>(
    start: Told<H>,
    id: u32,
    l: Limits,
    said: Seq<Said>,
    handlers: Seq<H>,
    at: Told<H>,
    frag: bool,
)
    requires
        leads(start, id, l, said, handlers, at),
        at.rest.len() == 0 || at.v.calls.stream(id) is None || !(frame::deframed(
            at.v.calls.stream(id)->0.deframer,
            at.rest,
            at.v.fragments.gives(frag),
        ).2 matches Ok(Some(_))),
    ensures
        model::data_served(start.v, id, start.rest, l, frag, said) == model::data_served(
            at.v,
            id,
            at.rest,
            l,
            frag,
            Seq::empty(),
        ),
        voices::data_told(
            start.v,
            id,
            start.rest,
            l,
            frag,
            said,
            start.handler,
            handlers,
            at.handler,
        ),
{
    reveal(leads);
    let none = Seq::<Said>::empty();
    let nobody = Seq::<H>::empty();
    assert(said + none =~= said);
    assert(handlers + nobody =~= handlers);
    assert(voices::data_told(
        at.v,
        id,
        at.rest,
        l,
        frag,
        none,
        at.handler,
        nobody,
        at.handler,
    ));
}

/// One message more of which the handler was told.
proof fn lemma_leads_on<H: Handler<()>>(
    start: Told<H>,
    id: u32,
    l: Limits,
    said: Seq<Said>,
    handlers: Seq<H>,
    at: Told<H>,
    s: model::StreamView,
    m: FrameView,
    heard: Said,
    next: Told<H>,
    more_follow: bool,
)
    requires
        leads(start, id, l, said, handlers, at),
        at.v.calls.stream(id) == Some(s),
        !frame::needs_place(s.deframer, at.rest),
        next.rest.len() < at.rest.len(),
        ({
            let (d, rest, out) = frame::deframed(s.deframer, at.rest, true);
            let read = voices::read_on(at.v, id, s, d, at.v.fragments);
            &&& rest == next.rest
            &&& out == Ok::<Option<FrameView>, frame::FrameError>(Some(m))
            &&& (next.v, more_follow) == model::message_served(read, id, m, l, heard)
            &&& voices::message_told(read, id, m, heard, at.handler, next.handler)
        }),
    ensures
        more_follow ==> leads(
            start,
            id,
            l,
            said.push(heard),
            handlers.push(next.handler),
            next,
        ),
        !more_follow ==> model::data_served(start.v, id, start.rest, l, true, said.push(heard))
            == next.v && voices::data_told(
            start.v,
            id,
            start.rest,
            l,
            true,
            said.push(heard),
            start.handler,
            handlers.push(next.handler),
            next.handler,
        ),
{
    reveal(leads);
    frame::lemma_places(s.deframer, at.rest);
    let hears = |frag: bool| frame::deframed(s.deframer, at.rest, at.v.fragments.gives(frag));
    assert(forall|frag: bool| #[trigger] hears(frag) == frame::deframed(s.deframer, at.rest, true));
    if more_follow {
        assert forall|frag: bool, more: Seq<Said>|
            model::data_served(start.v, id, start.rest, l, frag, said.push(heard) + more)
                == #[trigger] model::data_served(next.v, id, next.rest, l, frag, more) by {
            let longer = seq![heard] + more;
            assert(said.push(heard) + more =~= said + longer);
            assert(longer.drop_first() =~= more);
            assert(hears(frag) == frame::deframed(s.deframer, at.rest, true));
            let _ = model::data_served(at.v, id, at.rest, l, frag, longer);
        }
        assert forall|frag: bool, more: Seq<Said>, then: Seq<H>, after: H| #[trigger]
            voices::data_told(next.v, id, next.rest, l, frag, more, next.handler, then, after)
            implies voices::data_told(
            start.v,
            id,
            start.rest,
            l,
            frag,
            said.push(heard) + more,
            start.handler,
            handlers.push(next.handler) + then,
            after,
        ) by {
            let longer = seq![heard] + more;
            let later = seq![next.handler] + then;
            assert(said.push(heard) + more =~= said + longer);
            assert(handlers.push(next.handler) + then =~= handlers + later);
            assert(longer.drop_first() =~= more);
            assert(later.drop_first() =~= then);
            assert(hears(frag) == frame::deframed(s.deframer, at.rest, true));
            assert(voices::data_told(
                at.v,
                id,
                at.rest,
                l,
                frag,
                longer,
                at.handler,
                later,
                after,
            ));
        }
    } else {
        let one = seq![heard];
        let last = seq![next.handler];
        assert(said.push(heard) =~= said + one);
        assert(handlers.push(next.handler) =~= handlers + last);
        assert(hears(true) == frame::deframed(s.deframer, at.rest, true));
        assert(model::data_served(at.v, id, at.rest, l, true, one) == next.v);
        assert(voices::data_told(
            at.v,
            id,
            at.rest,
            l,
            true,
            one,
            at.handler,
            last,
            next.handler,
        ));
    }
}

/// A request whose bytes could not be read is forgotten once, however often that is asked for.
proof fn lemma_error_after_removal(
    at: ServerView,
    read: ServerView,
    id: u32,
    s: model::StreamView,
    rest: Seq<u8>,
    place: bool,
    error: frame::FrameError,
)
    requires
        at.calls.stream(id) == Some(s),
        ({
            let want = frame::deframed(s.deframer, rest, place);
            let kept = at.calls.with(
                id,
                model::CallView {
                    stream: Some(model::StreamView { deframer: want.0, ..s }),
                    ..at.calls.calls[id]
                },
            );
            read == ServerView { calls: model::removed(kept, id), ..at }
        }),
    ensures
        ({
            let want = frame::deframed(s.deframer, rest, place);
            let kept = ServerView {
                calls: at.calls.with(
                    id,
                    model::CallView {
                        stream: Some(model::StreamView { deframer: want.0, ..s }),
                        ..at.calls.calls[id]
                    },
                ),
                ..at
            };
            model::error_sent(read, id, status::frame_failure(error)) == model::error_sent(
                kept,
                id,
                status::frame_failure(error),
            )
        }),
{
    reveal(model::error_sent);
    let want = frame::deframed(s.deframer, rest, place);
    let kept = at.calls.with(
        id,
        model::CallView {
            stream: Some(model::StreamView { deframer: want.0, ..s }),
            ..at.calls.calls[id]
        },
    );
    let gone = model::removed(kept, id);
    assert(!gone.has(id));
    assert(model::removed(gone, id) == gone);
}

} // verus!
