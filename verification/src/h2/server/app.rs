//! What a server does with what happens on a connection.

use crate::h2::config;
use crate::h2::conn::model as conn_model;
use crate::h2::conn::model::{Chance, ConnView};
use crate::h2::conn::progress;
use crate::h2::error;
use crate::h2::error::ConnError;
use crate::h2::frame::ErrorCode;
use crate::h2::role;
use crate::h2::role::{Role, ServerRole};
use crate::h2::server::config::{Config, Limits};
use crate::h2::server::connection;
use crate::h2::server::connection::{ConnectionState, Dispatch, EventSink, Request, Response};
use crate::h2::server::model;
use crate::h2::server::model::{DispatchView, RequestView, ResponseView, ServerView};
use crate::h2::server::tasks::{Resumed, Started};
use crate::h2::stream::StreamId;
use vstd::prelude::*;

verus! {

/// What is to be done with a connection: nothing, or what is to be sent is sent, and then
/// perhaps it is closed.
#[derive(Copy, Clone, Debug, PartialEq, Eq, Structural)]
pub enum Action {
    Nothing,
    Flush { close_after: bool },
}

/// How things went while all events were put to `sink` once: what it decided, how it stood
/// after each event and at the end, how the connection stood then, and what its pool answered.
pub struct Round<S> {
    pub replies: Seq<DispatchView>,
    pub sinks: Seq<S>,
    pub after: ServerView,
    pub sink: S,
    pub chances: Seq<Chance>,
}

/// Whether all events were dealt with, again and again for as long as the connection had to
/// stop for want of room and got on; the result is the failure at which it stopped.
pub open spec fn ran<S: EventSink>(
    v: ServerView,
    result: Result<(), ConnError>,
    limits: Limits,
    rounds: Seq<Round<S>>,
    sink: S,
    w: ServerView,
    end: S,
    r: Result<(), ConnError>,
) -> bool
    decreases rounds.len(),
{
    if rounds.len() == 0 {
        false
    } else {
        let round = rounds[0];
        &&& connection::dealt(
            v,
            limits,
            round.replies,
            sink,
            round.sinks,
            round.after,
            round.sink,
        )
        &&& if result == Err::<(), ConnError>(ConnError::Overload)
            && v.conn.ingress.events.len() != 0 {
            let (conn, again) = conn_model::resumed(round.after.conn, true, round.chances);
            ran(
                round.after.with_conn(conn),
                again,
                limits,
                rounds.drop_first(),
                round.sink,
                w,
                end,
                r,
            )
        } else {
            w == round.after && end == round.sink && r == result
        }
    }
}

/// Whether bytes from the peer were taken, and all events were dealt with.
pub open spec fn took<S: EventSink>(
    v: ServerView,
    bytes: Seq<u8>,
    limits: Limits,
    chances: Seq<Chance>,
    rounds: Seq<Round<S>>,
    sink: S,
    w: ServerView,
    end: S,
    r: Result<(), ConnError>,
) -> bool {
    let (conn, result) = conn_model::ingested(v.conn, true, bytes, chances);
    ran(v.with_conn(conn), result, limits, rounds, sink, w, end, r)
}

/// A failure of the connection is told before it is closed.
pub open spec fn given_up(v: ServerView, r: Result<(), ConnError>) -> ServerView {
    match r {
        Ok(_) => v,
        Err(failure) => v.with_conn(
            conn_model::went_away(v.conn, error::code_for(failure), Seq::empty()).0,
        ),
    }
}

/// A connection that has come to its end takes nothing.
pub open spec fn at_end(c: ConnView) -> bool {
    c.goaway_sent || c.goaway_received is Some
}

/// What comes of bytes from the peer.
pub open spec fn chunked<S: EventSink>(
    v: ServerView,
    bytes: Seq<u8>,
    limits: Limits,
    sink: S,
    w: ServerView,
    end: S,
    r: Action,
) -> bool {
    if at_end(v.conn) {
        r == Action::Nothing && w == v && end == sink
    } else {
        exists|
            chances: Seq<Chance>,
            rounds: Seq<Round<S>>,
            mid: ServerView,
            result: Result<(), ConnError>,
        | #[trigger]
            took(v, bytes, limits, chances, rounds, sink, mid, end, result) && w == given_up(
                mid,
                result,
            ) && r == (Action::Flush { close_after: result is Err || w.conn.goaway_sent })
    }
}

/// Takes bytes from the peer and puts what they bring to `sink`. A failure of the connection is
/// told, and then it is closed.
pub fn chunk<S: EventSink>(
    state: &mut ConnectionState,
    limits: Limits,
    sink: &mut S,
    bytes: &[u8],
) -> (r: Action)
    requires
        old(state).wf(),
    ensures
        final(state).wf(),
        chunked(old(state)@, bytes@, limits, *old(sink), final(state)@, *final(sink), r),
{
    let ghost before = state@;
    let ghost first = *sink;
    if state.connection().goaway_sent() || state.connection().goaway_received().is_some() {
        return Action::Nothing;
    }
    proof {
        role::lemma_server();
    }
    let result = state.connection_mut().ingest(bytes);
    let ghost begun = state@;
    let ghost chances = choose|chances: Seq<Chance>|
        (begun.conn, result) == #[trigger] conn_model::ingested(
            before.conn,
            true,
            bytes@,
            chances,
        );
    assert(begun =~= before.with_conn(begun.conn));
    let ended = drive(state, limits, sink, result);
    let ghost mid = state@;
    proof {
        let rounds = choose|rounds: Seq<Round<S>>| #[trigger]
            ran(begun, result, limits, rounds, first, mid, *sink, ended);
        assert(took(before, bytes@, limits, chances, rounds, first, mid, *sink, ended));
    }
    let failed: bool = match ended {
        Ok(_) => false,
        Err(failure) => {
            let code: ErrorCode = ErrorCode::from(&failure);
            let nothing: Vec<u8> = Vec::new();
            assert(nothing@ =~= Seq::<u8>::empty());
            let _ = state.connection_mut().goaway(code, nothing.as_slice());
            true
        },
    };
    assert(state@ =~= given_up(mid, ended));
    Action::Flush { close_after: failed || state.connection().goaway_sent() }
}

fn drive<S: EventSink>(
    state: &mut ConnectionState,
    limits: Limits,
    sink: &mut S,
    result: Result<(), ConnError>,
) -> (r: Result<(), ConnError>)
    requires
        old(state).wf(),
    ensures
        final(state).wf(),
        exists|rounds: Seq<Round<S>>| #[trigger]
            ran(
                old(state)@,
                result,
                limits,
                rounds,
                *old(sink),
                final(state)@,
                *final(sink),
                r,
            ),
{
    let ghost before = state@;
    let ghost first = *sink;
    let ghost mut rounds: Seq<Round<S>> = Seq::empty();
    let mut current: Result<(), ConnError> = result;
    let mut again: bool = false;
    proof {
        assert forall|more: Seq<Round<S>>, w: ServerView, end: S, r: Result<(), ConnError>|
            #[trigger] ran(state@, current, limits, more, *sink, w, end, r) implies ran(
            before,
            result,
            limits,
            rounds + more,
            first,
            w,
            end,
            r,
        ) by {
            assert(rounds + more =~= more);
        }
    }
    loop
        invariant
            state.wf(),
            before == old(state)@,
            first == *old(sink),
            forall|more: Seq<Round<S>>, w: ServerView, end: S, r: Result<(), ConnError>|
                #[trigger] ran(state@, current, limits, more, *sink, w, end, r) ==> ran(
                    before,
                    result,
                    limits,
                    rounds + more,
                    first,
                    w,
                    end,
                    r,
                ),
        decreases
                if again {
                    0int
                } else {
                    1int
                },
                state@.conn.ingress.input.bytes().len() + (if state@.conn.ingress.events.len()
                    > 0 {
                    1int
                } else {
                    0int
                }),
    {
        let ghost at = state@;
        let ghost stood = *sink;
        let ghost now = current;
        let drained: usize = state.drain_events(limits, sink);
        let ghost settled = state@;
        let ghost stands = *sink;
        let ghost (replies, sinks) = choose|replies: Seq<DispatchView>, sinks: Seq<S>| #[trigger]
            connection::dealt(at, limits, replies, stood, sinks, settled, stands);
        let ghost mut last = Round {
            replies,
            sinks,
            after: settled,
            sink: stands,
            chances: Seq::empty(),
        };
        let mut stop: bool = true;
        if let Err(failure) = current {
            if failure == ConnError::Overload && drained != 0 {
                stop = false;
            }
        }
        if stop {
            proof {
                assert(seq![last][0] == last);
                assert(ran(at, now, limits, seq![last], stood, settled, stands, now));
                assert(ran(
                    before,
                    result,
                    limits,
                    rounds + seq![last],
                    first,
                    settled,
                    stands,
                    now,
                ));
            }
            return current;
        }
        current = state.connection_mut().resume();
        proof {
            role::lemma_server();
            let next = state@;
            let tried = choose|tried: Seq<Chance>|
                (next.conn, current) == #[trigger] conn_model::resumed(
                    settled.conn,
                    ServerRole::IS_SERVER,
                    tried,
                );
            progress::law_events_cost_input(settled.conn, ServerRole::IS_SERVER, tried);
            last = Round { chances: tried, ..last };
            assert(next =~= settled.with_conn(next.conn));
            assert forall|more: Seq<Round<S>>, w: ServerView, end: S, r: Result<(), ConnError>|
                #[trigger] ran(next, current, limits, more, stands, w, end, r) implies ran(
                before,
                result,
                limits,
                rounds.push(last) + more,
                first,
                w,
                end,
                r,
            ) by {
                let longer = seq![last] + more;
                assert(longer.drop_first() =~= more);
                assert(longer[0] == last);
                assert(ran(at, now, limits, longer, stood, w, end, r));
                assert(rounds + longer =~= rounds.push(last) + more);
            }
            rounds = rounds.push(last);
        }
        again = true;
    }
}

/// Bytes were written: responses that had to wait go on.
pub fn sent(state: &mut ConnectionState, limits: Limits) -> (r: Action)
    requires
        old(state).wf(),
    ensures
        final(state).wf(),
        final(state)@ == model::round(old(state)@, old(state)@.pending.len(), limits, false),
        r == (if final(state)@.conn.egress.first_len() == 0 {
            Action::Nothing
        } else {
            Action::Flush { close_after: final(state)@.conn.goaway_sent }
        }),
{
    state.pump_pending(limits, false);
    if state.connection().outbound().len() == 0 {
        Action::Nothing
    } else {
        Action::Flush { close_after: state.connection().goaway_sent() }
    }
}

/// Who answers requests at once. What the answers are is for the handler to say: it is free to
/// choose what `answers` states.
pub trait SyncHandler: Sized {
    /// What is said of a request that was answered.
    open spec fn answers(&self, request: RequestView, response: ResponseView) -> bool {
        true
    }

    fn request(&self, request: Request) -> (r: Response)
        ensures
            self.answers(request@, r@),
    ;
}

/// Puts requests to a handler that answers at once.
pub struct SyncSink<'h, H> {
    user: &'h H,
}

impl<'h, H> SyncSink<'h, H> {
    pub closed spec fn user(&self) -> H {
        *self.user
    }
}

impl<'h, H: SyncHandler> EventSink for SyncSink<'h, H> {
    open spec fn answers(
        before: Self,
        stream: u32,
        request: RequestView,
        after: Self,
        dispatch: DispatchView,
    ) -> bool {
        &&& after == before
        &&& dispatch matches DispatchView::Response(response)
        &&& before.user().answers(request, response)
    }

    open spec fn forgets(before: Self, stream: u32, after: Self) -> bool {
        after == before
    }

    fn request(&mut self, stream_id: StreamId, request: Request) -> (r: Dispatch) {
        Dispatch::Response(self.user.request(request))
    }

    fn reset(&mut self, stream_id: StreamId) {
    }
}

/// A connection whose requests are answered at once.
pub struct SyncConnState {
    state: ConnectionState,
}

impl SyncConnState {
    pub closed spec fn view(&self) -> ServerView {
        self.state@
    }

    pub closed spec fn wf(&self) -> bool {
        self.state.wf()
    }

    pub fn new(state: ConnectionState) -> (r: Self)
        requires
            state.wf(),
        ensures
            r.wf(),
            r@ == state@,
    {
        SyncConnState { state }
    }

    pub fn connection(&mut self) -> (r: &mut ConnectionState)
        requires
            old(self).wf(),
        ensures
            r.wf(),
            r@ == old(self)@,
            final(self)@ == final(r)@,
            final(r).wf() ==> final(self).wf(),
    {
        &mut self.state
    }
}

impl Default for SyncConnState {
    fn default() -> (r: Self)
        ensures
            r.wf(),
            config::validated(
                config::default_config(),
                ServerRole::IS_SERVER,
                ServerRole::PREFACE_SENDS_FIRST,
            ) matches Ok(c) && r@ == model::fresh(
                conn_model::initial(
                    c,
                    ServerRole::PREFACE_SENDS_FIRST,
                    ServerRole::FIRST_LOCAL_STREAM_ID,
                ),
            ),
    {
        SyncConnState { state: ConnectionState::default() }
    }
}

/// A server whose requests are answered at once.
pub struct SyncApp<'h, H> {
    user: &'h H,
    limits: Limits,
}

impl<'h, H: SyncHandler> SyncApp<'h, H> {
    pub closed spec fn user(&self) -> H {
        *self.user
    }

    pub closed spec fn limits(&self) -> Limits {
        self.limits
    }

    pub fn new(user: &'h H, config: Config) -> (r: Self)
        ensures
            r.user() == *user,
            r.limits() == (Limits {
                max_request_body_bytes: config.max_request_body_bytes,
                max_connection_body_bytes: config.max_connection_body_bytes,
                max_outbound_bytes: config.max_outbound_bytes,
            }),
    {
        SyncApp { user, limits: config.limits() }
    }

    pub fn handler(&self) -> (r: &H)
        ensures
            *r == self.user(),
    {
        self.user
    }

    /// Takes bytes from the peer and answers the requests that are complete with them.
    pub fn chunk(&self, slot: &mut SyncConnState, bytes: &[u8]) -> (r: Action)
        requires
            old(slot).wf(),
        ensures
            final(slot).wf(),
            exists|sink: SyncSink<'h, H>, end: SyncSink<'h, H>|
                sink.user() == self.user() && #[trigger] chunked(
                    old(slot)@,
                    bytes@,
                    self.limits(),
                    sink,
                    final(slot)@,
                    end,
                    r,
                ),
    {
        let mut sink = SyncSink { user: self.user };
        let ghost first = sink;
        let ghost before = slot.state@;
        let r = chunk(&mut slot.state, self.limits, &mut sink, bytes);
        assert(chunked(before, bytes@, self.limits(), first, slot.state@, sink, r));
        r
    }

    /// Bytes were written: responses that had to wait go on.
    pub fn send(&self, slot: &mut SyncConnState) -> (r: Action)
        requires
            old(slot).wf(),
        ensures
            final(slot).wf(),
            final(slot)@ == model::round(
                old(slot)@,
                old(slot)@.pending.len(),
                self.limits(),
                false,
            ),
            r == (if final(slot)@.conn.egress.first_len() == 0 {
                Action::Nothing
            } else {
                Action::Flush { close_after: final(slot)@.conn.goaway_sent }
            }),
    {
        sent(&mut slot.state, self.limits)
    }

    /// The connection is gone: nothing waits any longer.
    pub fn close(&self, slot: &mut SyncConnState)
        requires
            old(slot).wf(),
        ensures
            final(slot).wf(),
            final(slot)@ == (ServerView {
                pending: Seq::empty(),
                incoming: Map::empty(),
                buffered: 0,
                ..old(slot)@
            }),
    {
        slot.state.close();
    }
}

/// What a handler that was started means for its request.
pub fn dispatch_started(started: Started, response: Option<Response>) -> (r: Dispatch)
    requires
        started == Started::Ready ==> response is Some,
    ensures
        r@ == (match started {
            Started::Ready => DispatchView::Response(response->0@),
            Started::Pending => DispatchView::Pending,
            Started::Refused => DispatchView::Reset(ErrorCode::RefusedStream),
            Started::Failed => DispatchView::Reset(ErrorCode::InternalError),
        }),
{
    match started.error() {
        Some(code) => Dispatch::Reset(code),
        None => match (started, response) {
            (Started::Ready, Some(response)) => Dispatch::Response(response),
            _ => Dispatch::Pending,
        },
    }
}

/// What a handler that was woken means for its request, if anything comes of it.
pub fn dispatch_resumed(resumed: Resumed, response: Option<Response>) -> (r: Option<
    (StreamId, Dispatch),
>)
    requires
        resumed is Ready ==> response is Some,
    ensures
        match resumed {
            Resumed::Ready(id) => r matches Some(x) && x.0 == id && x.1@
                == DispatchView::Response(response->0@),
            Resumed::Failed(id) => r matches Some(x) && x.0 == id && x.1@ == DispatchView::Reset(
                ErrorCode::InternalError,
            ),
            Resumed::Pending => r is None,
            Resumed::Stale => r is None,
        },
{
    match (resumed, response) {
        (Resumed::Ready(id), Some(response)) => Some((id, Dispatch::Response(response))),
        (Resumed::Failed(id), _) => Some((id, Dispatch::Reset(ErrorCode::InternalError))),
        _ => None,
    }
}

} // verus!
