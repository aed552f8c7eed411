//! Stream identifiers and the stream life cycle.

use vstd::prelude::*;

verus! {

/// A 31-bit stream identifier.
#[derive(Copy, Clone, Debug, PartialEq, Eq, PartialOrd, Ord, Hash, Structural)]
pub struct StreamId(u32);

/// Whether `n` is an identifier that a client chooses.
pub open spec fn client_number(n: u32) -> bool {
    n % 2 == 1
}

/// Whether `n` is an identifier that a server chooses.
pub open spec fn server_number(n: u32) -> bool {
    n != 0 && n % 2 == 0
}

/// The identifier with the given number.
pub closed spec fn id_of(n: u32) -> StreamId {
    StreamId(n)
}

impl StreamId {
    pub const MAX: u32 = 0x7fff_ffff;

    /// The identifier as a number.
    pub closed spec fn value(self) -> u32 {
        self.0
    }

    #[verifier::type_invariant]
    spec fn inv(self) -> bool {
        self.0 <= 0x7fff_ffff
    }

    /// A number and its identifier determine each other.
    pub proof fn lemma_id_of(id: StreamId, n: u32)
        ensures
            id_of(id.value()) == id,
            id_of(n).value() == n,
    {
    }

    /// The identifier of the connection itself.
    pub fn connection() -> (r: Self)
        ensures
            r.value() == 0,
    {
        StreamId(0)
    }

    /// The first identifier that a client opens.
    pub fn first_client() -> (r: Self)
        ensures
            r.value() == 1,
    {
        StreamId(1)
    }

    /// The first identifier that a server opens.
    pub fn first_server() -> (r: Self)
        ensures
            r.value() == 2,
    {
        StreamId(2)
    }

    pub fn new(raw: u32) -> (r: Option<Self>)
        ensures
            r is Some <==> raw <= Self::MAX,
            r matches Some(id) ==> id.value() == raw,
    {
        if raw <= Self::MAX {
            Some(StreamId(raw))
        } else {
            None
        }
    }

    pub fn as_u32(self) -> (r: u32)
        ensures
            r == self.value(),
            r <= Self::MAX,
    {
        proof {
            use_type_invariant(&self);
        }
        self.0
    }

    pub fn is_zero(self) -> (r: bool)
        ensures
            r == (self.value() == 0),
    {
        self.0 == 0
    }

    pub fn is_client(self) -> (r: bool)
        ensures
            r == client_number(self.value()),
    {
        self.0 != 0 && self.0 % 2 == 1
    }

    pub fn is_server(self) -> (r: bool)
        ensures
            r == server_number(self.value()),
    {
        self.0 != 0 && self.0 % 2 == 0
    }

    /// The identifier in a 32-bit wire field, whose top bit is reserved.
    pub fn from_wire(raw: u32) -> (r: Self)
        ensures
            r.value() == raw % 0x8000_0000,
    {
        assert(raw & 0x7fff_ffff == raw % 0x8000_0000 && raw & 0x7fff_ffff <= 0x7fff_ffff)
            by (bit_vector);
        StreamId(raw & 0x7fff_ffff)
    }
}

#[derive(Copy, Clone, Debug, PartialEq, Eq, Structural)]
pub enum State {
    Idle,
    ReservedLocal,
    ReservedRemote,
    Open,
    HalfClosedLocal,
    HalfClosedRemote,
    Closed,
}

#[derive(Copy, Clone, Debug, PartialEq, Eq, Structural)]
pub enum Side {
    Local,
    Remote,
}

#[derive(Copy, Clone, Debug, PartialEq, Eq, Structural)]
pub enum Event {
    Headers { end_stream: bool },
    PushPromise,
    Data { end_stream: bool },
    RstStream,
}

#[derive(Copy, Clone, Debug, PartialEq, Eq, Structural)]
pub enum TransitionError {
    Protocol,
    StreamClosed,
}

/// The other end of the connection.
pub open spec fn opposite(side: Side) -> Side {
    match side {
        Side::Local => Side::Remote,
        Side::Remote => Side::Local,
    }
}

/// The state in which only `side` has finished sending.
pub open spec fn half_closed(side: Side) -> State {
    match side {
        Side::Local => State::HalfClosedLocal,
        Side::Remote => State::HalfClosedRemote,
    }
}

/// The state of a stream that `side` has promised and not yet answered.
pub open spec fn reserved(side: Side) -> State {
    match side {
        Side::Local => State::ReservedLocal,
        Side::Remote => State::ReservedRemote,
    }
}

/// The state in which the other end of the connection sees the same stream.
pub open spec fn mirrored(state: State) -> State {
    match state {
        State::ReservedLocal => State::ReservedRemote,
        State::ReservedRemote => State::ReservedLocal,
        State::HalfClosedLocal => State::HalfClosedRemote,
        State::HalfClosedRemote => State::HalfClosedLocal,
        other => other,
    }
}

/// What becomes of a stream in `state` when `side` emits `ev`.
///
/// A reset closes any stream. A side that has finished may emit nothing else. An idle or
/// promised stream is opened by header fields only, and a promise only by the side that
/// made it. On an open stream the end-of-stream mark finishes the side that sets it.
pub open spec fn transition(state: State, ev: Event, side: Side) -> Result<
    State,
    TransitionError,
> {
    if ev is RstStream {
        Ok(State::Closed)
    } else if state is Closed || state == half_closed(side) {
        Err(TransitionError::StreamClosed)
    } else if state is Idle {
        match ev {
            Event::Headers { end_stream } => Ok(
                if end_stream {
                    half_closed(side)
                } else {
                    State::Open
                },
            ),
            _ => Err(TransitionError::Protocol),
        }
    } else if state == reserved(side) {
        match ev {
            Event::Headers { end_stream } => Ok(
                if end_stream {
                    State::Closed
                } else {
                    half_closed(opposite(side))
                },
            ),
            _ => Err(TransitionError::Protocol),
        }
    } else if state == reserved(opposite(side)) {
        Err(TransitionError::Protocol)
    } else {
        let ends = ev == (Event::Headers { end_stream: true }) || ev == (Event::Data {
            end_stream: true,
        });
        Ok(
            if !ends {
                state
            } else if state is Open {
                half_closed(side)
            } else {
                State::Closed
            },
        )
    }
}

impl State {
    pub fn send(self, ev: Event) -> (r: Result<Self, TransitionError>)
        ensures
            r == transition(self, ev, Side::Local),
    {
        match (self, ev) {
            (_, Event::RstStream) => Ok(State::Closed),
            (State::Idle, Event::Headers { end_stream: false }) => Ok(State::Open),
            (State::Idle, Event::Headers { end_stream: true }) => Ok(State::HalfClosedLocal),
            (State::Idle, _) => Err(TransitionError::Protocol),
            (State::ReservedLocal, Event::Headers { end_stream: false }) => Ok(
                State::HalfClosedRemote,
            ),
            (State::ReservedLocal, Event::Headers { end_stream: true }) => Ok(State::Closed),
            (State::ReservedLocal, _) => Err(TransitionError::Protocol),
            (State::ReservedRemote, _) => Err(TransitionError::Protocol),
            (State::Open, Event::Headers { end_stream: true }) => Ok(State::HalfClosedLocal),
            (State::Open, Event::Data { end_stream: true }) => Ok(State::HalfClosedLocal),
            (State::Open, _) => Ok(State::Open),
            (State::HalfClosedLocal, _) => Err(TransitionError::StreamClosed),
            (State::HalfClosedRemote, Event::Headers { end_stream: true }) => Ok(State::Closed),
            (State::HalfClosedRemote, Event::Data { end_stream: true }) => Ok(State::Closed),
            (State::HalfClosedRemote, _) => Ok(State::HalfClosedRemote),
            (State::Closed, _) => Err(TransitionError::StreamClosed),
        }
    }

    pub fn recv(self, ev: Event) -> (r: Result<Self, TransitionError>)
        ensures
            r == transition(self, ev, Side::Remote),
    {
        match (self, ev) {
            (_, Event::RstStream) => Ok(State::Closed),
            (State::Idle, Event::Headers { end_stream: false }) => Ok(State::Open),
            (State::Idle, Event::Headers { end_stream: true }) => Ok(State::HalfClosedRemote),
            (State::Idle, _) => Err(TransitionError::Protocol),
            (State::ReservedRemote, Event::Headers { end_stream: false }) => Ok(
                State::HalfClosedLocal,
            ),
            (State::ReservedRemote, Event::Headers { end_stream: true }) => Ok(State::Closed),
            (State::ReservedRemote, _) => Err(TransitionError::Protocol),
            (State::ReservedLocal, _) => Err(TransitionError::Protocol),
            (State::Open, Event::Headers { end_stream: true }) => Ok(State::HalfClosedRemote),
            (State::Open, Event::Data { end_stream: true }) => Ok(State::HalfClosedRemote),
            (State::Open, _) => Ok(State::Open),
            (State::HalfClosedRemote, _) => Err(TransitionError::StreamClosed),
            (State::HalfClosedLocal, Event::Headers { end_stream: true }) => Ok(State::Closed),
            (State::HalfClosedLocal, Event::Data { end_stream: true }) => Ok(State::Closed),
            (State::HalfClosedLocal, _) => Ok(State::HalfClosedLocal),
            (State::Closed, _) => Err(TransitionError::StreamClosed),
        }
    }

    pub fn step(self, ev: Event, side: Side) -> (r: Result<Self, TransitionError>)
        ensures
            r == transition(self, ev, side),
    {
        match side {
            Side::Local => self.send(ev),
            Side::Remote => self.recv(ev),
        }
    }
}

/// One stream: its identifier, its state, and whether the peer's header fields came.
#[derive(Copy, Clone, Debug)]
pub struct Stream {
    pub id: StreamId,
    pub state: State,
    pub peer_headers_received: bool,
}

impl Stream {
    pub fn new(id: StreamId) -> (r: Self)
        ensures
            r == (Stream { id, state: State::Idle, peer_headers_received: false }),
    {
        Stream { id, state: State::Idle, peer_headers_received: false }
    }

    pub fn reserve_local(id: StreamId) -> (r: Self)
        ensures
            r == (Stream { id, state: State::ReservedLocal, peer_headers_received: false }),
    {
        Stream { id, state: State::ReservedLocal, peer_headers_received: false }
    }

    pub fn reserve_remote(id: StreamId) -> (r: Self)
        ensures
            r == (Stream { id, state: State::ReservedRemote, peer_headers_received: false }),
    {
        Stream { id, state: State::ReservedRemote, peer_headers_received: false }
    }

    /// Applies an event of this end. A refused event leaves the stream as it was.
    pub fn send(&mut self, ev: Event) -> (r: Result<State, TransitionError>)
        ensures
            r == transition(old(self).state, ev, Side::Local),
            *final(self) == match r {
                Ok(next) => (Stream { state: next, ..*old(self) }),
                Err(_) => *old(self),
            },
    {
        match self.state.send(ev) {
            Ok(next) => {
                self.state = next;
                Ok(next)
            },
            Err(error) => Err(error),
        }
    }

    /// Applies an event of the peer. A refused event leaves the stream as it was.
    pub fn recv(&mut self, ev: Event) -> (r: Result<State, TransitionError>)
        ensures
            r == transition(old(self).state, ev, Side::Remote),
            *final(self) == match r {
                Ok(next) => (Stream { state: next, ..*old(self) }),
                Err(_) => *old(self),
            },
    {
        match self.state.recv(ev) {
            Ok(next) => {
                self.state = next;
                Ok(next)
            },
            Err(error) => Err(error),
        }
    }
}

/// The state that follows `state` after the events `evs`, each emitted by the given side,
/// where every event is accepted.
pub open spec fn run(state: State, evs: Seq<(Event, Side)>) -> Option<State>
    decreases evs.len(),
{
    if evs.len() == 0 {
        Some(state)
    } else {
        match transition(state, evs[0].0, evs[0].1) {
            Ok(next) => run(next, evs.drop_first()),
            Err(_) => None,
        }
    }
}

/// Both ends agree: what one end sees as its own event, the other end sees as its peer's,
/// and the two states stay mirror images of each other.
pub proof fn law_ends_mirror_each_other(state: State, ev: Event, side: Side)
    ensures
        transition(mirrored(state), ev, opposite(side)) == (match transition(state, ev, side) {
            Ok(next) => Ok::<State, TransitionError>(mirrored(next)),
            Err(error) => Err(error),
        }),
        mirrored(mirrored(state)) == state,
{
}

/// A closed stream stays closed: a reset is accepted and changes nothing, anything else is
/// refused as coming after the end.
pub proof fn law_closed_is_final(evs: Seq<(Event, Side)>)
    ensures
        forall|ev: Event, side: Side|
            !(ev is RstStream) ==> #[trigger] transition(State::Closed, ev, side)
                == Err::<State, TransitionError>(TransitionError::StreamClosed),
        run(State::Closed, evs) matches Some(end) ==> end == State::Closed,
    decreases evs.len(),
{
    if evs.len() > 0 && run(State::Closed, evs) is Some {
        law_closed_is_final(evs.drop_first());
    }
}

/// A reset closes every stream, whoever sends it.
pub proof fn law_reset_closes(state: State, side: Side)
    ensures
        transition(state, Event::RstStream, side) == Ok::<State, TransitionError>(State::Closed),
{
}

/// Whether `side` has marked the end of its data on a stream in `state`.
pub open spec fn finished(state: State, side: Side) -> bool {
    state is Closed || state == half_closed(side)
}

/// A side that marked the end of its data sends no header fields, data or promises any
/// more, whatever the peer does in between.
pub proof fn law_end_of_stream_is_kept(state: State, evs: Seq<(Event, Side)>, side: Side)
    requires
        finished(state, side),
    ensures
        forall|ev: Event|
            !(ev is RstStream) ==> #[trigger] transition(state, ev, side) == Err::<
                State,
                TransitionError,
            >(TransitionError::StreamClosed),
        run(state, evs) matches Some(end) ==> finished(end, side),
    decreases evs.len(),
{
    if evs.len() > 0 && run(state, evs) is Some {
        law_end_of_stream_is_kept(
            transition(state, evs[0].0, evs[0].1)->Ok_0,
            evs.drop_first(),
            side,
        );
    }
}

/// Hands out stream identifiers of one parity in ascending order.
pub struct IdGen {
    next: Option<StreamId>,
    step: u32,
}

/// The identifier after `n` of the same parity, if there is one.
pub open spec fn following(n: u32) -> Option<u32> {
    if n + 2 <= StreamId::MAX {
        Some((n + 2) as u32)
    } else {
        None
    }
}

impl IdGen {
    /// The identifier that comes next.
    pub closed spec fn upcoming(self) -> Option<u32> {
        match self.next {
            Some(id) => Some(id.value()),
            None => None,
        }
    }

    #[verifier::type_invariant]
    spec fn inv(self) -> bool {
        self.step == 2
    }

    pub fn new(first: StreamId) -> (r: Self)
        ensures
            r.upcoming() == Some(first.value()),
    {
        IdGen { next: Some(first), step: 2 }
    }

    pub fn next_id(&mut self) -> (r: Option<StreamId>)
        ensures
            r is Some <==> old(self).upcoming() is Some,
            r matches Some(id) ==> old(self).upcoming() == Some(id.value())
                && final(self).upcoming() == following(id.value()),
            r is None ==> final(self).upcoming() is None,
    {
        proof {
            use_type_invariant(&*self);
        }
        match self.next {
            None => None,
            Some(id) => {
                self.next = match id.as_u32().checked_add(self.step) {
                    Some(raw) => StreamId::new(raw),
                    None => None,
                };
                Some(id)
            },
        }
    }

    pub fn peek(&self) -> (r: Option<StreamId>)
        ensures
            r is Some <==> self.upcoming() is Some,
            r matches Some(id) ==> self.upcoming() == Some(id.value()),
    {
        self.next
    }
}

/// Identifiers ascend and keep the parity of the first one, so none is handed out twice.
pub proof fn law_identifiers_ascend(n: u32)
    ensures
        following(n) matches Some(m) ==> m > n && m <= StreamId::MAX && m % 2 == n % 2,
        following(n) is None <==> n + 2 > StreamId::MAX,
{
}

} // verus!
