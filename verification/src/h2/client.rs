//! A client on a connection.

use crate::h2::conn::model;
use crate::h2::conn::model::{Chance, ConnView};
use crate::h2::conn::progress;
use crate::h2::conn::{Conn, ConnError};
use crate::h2::event::{Event, EventView};
use crate::h2::ingress::IngressView;
use crate::h2::role;
use crate::h2::role::{ClientRole, Role};
use vstd::prelude::*;

verus! {

/// What becomes of a connection.
#[derive(Copy, Clone, Debug, PartialEq, Eq, Structural)]
pub enum Close {
    Keep,
    Reconnect,
}

/// A connection of a client.
pub struct ConnState {
    pub conn: Conn<ClientRole>,
}

impl ConnState {
    /// A connection on which either end has sent GOAWAY is replaced.
    pub fn wants_close(&self) -> (r: Close)
        ensures
            r == (if self.conn@.goaway_received is Some || self.conn@.goaway_sent {
                Close::Reconnect
            } else {
                Close::Keep
            }),
    {
        if self.conn.goaway_received().is_some() || self.conn.goaway_sent() {
            Close::Reconnect
        } else {
            Close::Keep
        }
    }

    pub fn defer_close(&self) -> (r: bool)
        ensures
            !r,
    {
        false
    }

    pub fn is_drained(&self) -> (r: bool)
        ensures
            r,
    {
        true
    }
}

/// Who deals with the events of a connection. It may send, and give back the places that events
/// hold; what came in is not its concern. What it does with an event is for it to say: it is free
/// to choose what `handles` states.
pub trait Handler: Sized {
    /// What the handler says of an event that it has dealt with.
    open spec fn handles(
        before: Self,
        conn: ConnView,
        event: EventView,
        after: Self,
        left: ConnView,
    ) -> bool {
        true
    }

    fn event(&mut self, event: Event, conn: &mut Conn<ClientRole>)
        requires
            old(conn).wf(),
            old(conn).lends(event),
        ensures
            final(conn).wf(),
            final(conn)@.ingress.input == old(conn)@.ingress.input,
            final(conn)@.ingress.events == old(conn)@.ingress.events,
            Self::handles(*old(self), old(conn)@, event@, *final(self), final(conn)@),
    ;
}

/// A handler and the connection, at some time.
pub struct Moment<H> {
    pub handler: H,
    pub conn: ConnView,
}

/// A connection without its first event.
pub open spec fn polled(c: ConnView) -> ConnView {
    c.with_ingress(IngressView { events: c.ingress.events.drop_first(), ..c.ingress })
}

/// Whether `n` events were handed to the handler, in order; `steps` tells how things stood
/// after each.
pub open spec fn handed<H: Handler>(
    start: Moment<H>,
    n: nat,
    steps: Seq<Moment<H>>,
    end: Moment<H>,
) -> bool
    decreases n,
{
    if n == 0 {
        end == start
    } else {
        &&& steps.len() > 0
        &&& H::handles(
            start.handler,
            polled(start.conn),
            start.conn.ingress.events[0],
            steps[0].handler,
            steps[0].conn,
        )
        &&& handed(steps[0], (n - 1) as nat, steps.drop_first(), end)
    }
}

/// How things went while a client dealt once with all events.
pub struct Round<H> {
    pub steps: Seq<Moment<H>>,
    pub drained: Moment<H>,
    pub chances: Seq<Chance>,
}

/// Whether all events were dealt with, again and again for as long as the connection had to
/// stop for want of room and got on; the result is that of the last try.
pub open spec fn driven<H: Handler>(
    start: Moment<H>,
    result: Result<(), ConnError>,
    rounds: Seq<Round<H>>,
    end: Moment<H>,
    r: Result<(), ConnError>,
) -> bool
    decreases rounds.len(),
{
    if rounds.len() == 0 {
        false
    } else {
        let count = start.conn.ingress.events.len();
        let round = rounds[0];
        &&& handed(start, count, round.steps, round.drained)
        &&& if result == Err::<(), ConnError>(ConnError::Overload) && count != 0 {
            let (conn, again) = model::resumed(round.drained.conn, false, round.chances);
            driven(
                Moment { handler: round.drained.handler, conn },
                again,
                rounds.drop_first(),
                end,
                r,
            )
        } else {
            end == round.drained && r == result
        }
    }
}

/// Whether bytes from the peer were taken, and all events were dealt with.
pub open spec fn took<H: Handler>(
    start: Moment<H>,
    bytes: Seq<u8>,
    chances: Seq<Chance>,
    rounds: Seq<Round<H>>,
    end: Moment<H>,
    r: Result<(), ConnError>,
) -> bool {
    let (conn, result) = model::ingested(start.conn, false, bytes, chances);
    driven(Moment { handler: start.handler, conn }, result, rounds, end, r)
}

/// The state of the parser: there is none.
#[derive(Copy, Clone, Debug, Default)]
pub struct State;

/// Bytes that came in.
pub struct Head(pub Vec<u8>);

/// Takes whatever came in as one piece.
#[derive(Copy, Clone, Debug)]
pub struct Codec;

impl Codec {
    /// All bytes, unless there are none.
    pub fn parse(&self, buf: Vec<u8>) -> (r: Option<(Head, usize)>)
        ensures
            match r {
                Some((head, len)) => head.0@ == buf@ && len == buf@.len() && len > 0,
                None => buf@.len() == 0,
            },
    {
        let len: usize = buf.len();
        if len == 0 {
            None
        } else {
            Some((Head(buf), len))
        }
    }
}

/// A client: who deals with events.
pub struct Session<H> {
    codec: Codec,
    handler: H,
}

impl<H: Handler> Session<H> {
    pub closed spec fn owner(&self) -> H {
        self.handler
    }

    pub fn new(handler: H) -> (r: Self)
        ensures
            r.owner() == handler,
    {
        Session { codec: Codec, handler }
    }

    pub fn handler(&self) -> (r: &H)
        ensures
            *r == self.owner(),
    {
        &self.handler
    }

    pub fn handler_mut(&mut self) -> (r: &mut H)
        ensures
            *r == old(self).owner(),
            final(self).owner() == *final(r),
    {
        &mut self.handler
    }

    /// How bytes are taken: as they come.
    pub fn codec(&self) -> (r: &Codec)
        ensures
            *r == Codec,
    {
        &self.codec
    }

    /// Hands all events to the handler, and says whether there were any.
    fn drain_events(&mut self, conn: &mut Conn<ClientRole>) -> (r: bool)
        requires
            old(conn).wf(),
        ensures
            final(conn).wf(),
            r == (old(conn)@.ingress.events.len() > 0),
            final(conn)@.ingress.events.len() == 0,
            final(conn)@.ingress.input == old(conn)@.ingress.input,
            exists|steps: Seq<Moment<H>>| #[trigger]
                handed(
                    Moment { handler: old(self).owner(), conn: old(conn)@ },
                    old(conn)@.ingress.events.len(),
                    steps,
                    Moment { handler: final(self).owner(), conn: final(conn)@ },
                ),
    {
        let mut drained = false;
        let all: usize = conn.event_count();
        let mut left: usize = all;
        let ghost before = conn@;
        let ghost start = Moment { handler: self.handler, conn: conn@ };
        let ghost mut done: Seq<Moment<H>> = Seq::empty();
        proof {
            assert forall|more: Seq<Moment<H>>, end: Moment<H>| #[trigger]
                handed(start, all as nat, more, end) implies handed(
                start,
                all as nat,
                done + more,
                end,
            ) by {
                assert(done + more =~= more);
            }
        }
        while left > 0
            invariant
                conn.wf(),
                left == conn@.ingress.events.len(),
                left <= all,
                conn@.ingress.input == before.ingress.input,
                drained == (left < all),
                all == before.ingress.events.len(),
                forall|more: Seq<Moment<H>>, end: Moment<H>| #[trigger]
                    handed(
                        Moment { handler: self.handler, conn: conn@ },
                        left as nat,
                        more,
                        end,
                    ) ==> handed(start, all as nat, done + more, end),
            decreases left,
        {
            let ghost at = Moment { handler: self.handler, conn: conn@ };
            if let Some(event) = conn.poll_event() {
                drained = true;
                assert(conn@ == polled(at.conn));
                self.handler.event(event, conn);
            }
            left = left - 1;
            proof {
                let step = Moment { handler: self.handler, conn: conn@ };
                assert forall|more: Seq<Moment<H>>, end: Moment<H>| #[trigger]
                    handed(step, left as nat, more, end) implies handed(
                    start,
                    all as nat,
                    done.push(step) + more,
                    end,
                ) by {
                    let longer = seq![step] + more;
                    assert(longer.drop_first() =~= more);
                    assert(handed(at, (left + 1) as nat, longer, end));
                    assert(done + longer =~= done.push(step) + more);
                }
                done = done.push(step);
            }
        }
        proof {
            let end = Moment { handler: self.handler, conn: conn@ };
            assert(handed(end, 0, Seq::empty(), end));
            assert(handed(start, all as nat, done + Seq::empty(), end));
        }
        drained
    }

    /// Takes bytes from the peer, and hands the events to the handler. What finds no room is
    /// tried again once events were taken.
    pub fn response(&mut self, head: Head, state: &mut ConnState) -> (r: Result<(), ConnError>)
        requires
            old(state).conn.wf(),
        ensures
            final(state).conn.wf(),
            final(state).conn@.ingress.events.len() == 0,
            exists|chances: Seq<Chance>, rounds: Seq<Round<H>>| #[trigger]
                took(
                    Moment { handler: old(self).owner(), conn: old(state).conn@ },
                    head.0@,
                    chances,
                    rounds,
                    Moment { handler: final(self).owner(), conn: final(state).conn@ },
                    r,
                ),
    {
        let ghost start = Moment { handler: self.handler, conn: state.conn@ };
        let ghost taken = head.0@;
        let first = state.conn.ingest_retained(head.0);
        let ghost chances = choose|chances: Seq<Chance>|
            (state.conn@, first) == #[trigger] model::ingested(start.conn, false, taken, chances);
        proof {
            role::lemma_client();
            assert((state.conn@, first) == model::ingested(start.conn, false, taken, chances));
        }
        let ghost begun = Moment { handler: self.handler, conn: state.conn@ };
        let ghost mut rounds: Seq<Round<H>> = Seq::empty();
        let mut current: Result<(), ConnError> = first;
        let mut again: bool = false;
        proof {
            assert forall|more: Seq<Round<H>>, end: Moment<H>, r: Result<(), ConnError>| #[trigger]
                driven(begun, first, more, end, r) implies driven(
                begun,
                first,
                rounds + more,
                end,
                r,
            ) by {
                assert(rounds + more =~= more);
            }
        }
        loop
            invariant
                state.conn.wf(),
                forall|more: Seq<Round<H>>, end: Moment<H>, r: Result<(), ConnError>| #[trigger]
                    driven(
                        Moment { handler: self.handler, conn: state.conn@ },
                        current,
                        more,
                        end,
                        r,
                    ) ==> driven(begun, first, rounds + more, end, r),
                (begun.conn, first) == model::ingested(start.conn, false, taken, chances),
                begun.handler == start.handler,
                start == (Moment { handler: old(self).owner(), conn: old(state).conn@ }),
                taken == head.0@,
            decreases
                    if again {
                        0int
                    } else {
                        1int
                    },
                    state.conn@.ingress.input.bytes().len() + (if state.conn@.ingress.events.len()
                        > 0 {
                        1int
                    } else {
                        0int
                    }),
        {
            let ghost at = Moment { handler: self.handler, conn: state.conn@ };
            let ghost now = current;
            let drained = self.drain_events(&mut state.conn);
            let ghost settled = Moment { handler: self.handler, conn: state.conn@ };
            let ghost count = at.conn.ingress.events.len();
            let ghost steps = choose|steps: Seq<Moment<H>>| #[trigger]
                handed(at, count, steps, settled);
            let ghost mut last = Round { steps, drained: settled, chances: Seq::empty() };
            let mut stop: bool = true;
            if let Err(error) = current {
                if error == ConnError::Overload && drained {
                    stop = false;
                }
            }
            if stop {
                proof {
                    assert(seq![last].drop_first() =~= Seq::<Round<H>>::empty());
                    assert(driven(at, now, seq![last], settled, now));
                    assert(driven(begun, first, rounds + seq![last], settled, now));
                    assert(took(start, taken, chances, rounds + seq![last], settled, now));
                }
                return current;
            }
            current = state.conn.resume();
            proof {
                role::lemma_client();
                let tried = choose|tried: Seq<Chance>|
                    (state.conn@, current) == #[trigger] model::resumed(
                        settled.conn,
                        ClientRole::IS_SERVER,
                        tried,
                    );
                progress::law_events_cost_input(settled.conn, ClientRole::IS_SERVER, tried);
                last = Round { chances: tried, ..last };
                let next = Moment { handler: self.handler, conn: state.conn@ };
                assert forall|more: Seq<Round<H>>, end: Moment<H>, r: Result<(), ConnError>|
                    #[trigger] driven(next, current, more, end, r) implies driven(
                    begun,
                    first,
                    rounds.push(last) + more,
                    end,
                    r,
                ) by {
                    let longer = seq![last] + more;
                    assert(longer.drop_first() =~= more);
                    assert(driven(at, now, longer, end, r));
                    assert(rounds + longer =~= rounds.push(last) + more);
                }
                rounds = rounds.push(last);
            }
            again = true;
        }
    }

    /// The bytes that can be written now; `drained` is called once they were.
    pub fn outbound(state: &ConnState) -> (r: Vec<u8>)
        requires
            state.conn.wf(),
        ensures
            r@ == state.conn@.egress.bytes.subrange(0, state.conn@.egress.first_len() as int),
    {
        crate::bytes::to_vec(state.conn.outbound())
    }

    /// Bytes were handed on to be written.
    pub fn drained(state: &mut ConnState, len: usize)
        requires
            old(state).conn.wf(),
        ensures
            final(state).conn.wf(),
            final(state).conn@ == (ConnView {
                egress: old(state).conn@.egress.drained(len as int),
                ..old(state).conn@
            }),
    {
        state.conn.drain_outbound(len);
    }
}

} // verus!
