//! Driving a connection with what comes in.

use crate::h2::conn::model;
use crate::h2::conn::model::{Chance, ConnView};
use crate::h2::conn::progress;
use crate::h2::conn::{Conn, ConnError};
use crate::h2::role;
use crate::h2::role::{Role, ServerRole};
use crate::h2::server::config::Limits;
use crate::h2::server::connection::{ConnectionState, EventSink};
use crate::h2::server::connection;
use crate::h2::server::model::DispatchView;
use vstd::prelude::*;

verus! {

/// A connection whose events are dealt with. What comes of them is for the implementor to say:
/// it is free to choose what `settles` states.
pub trait Transport: Sized {
    /// The connection.
    open spec fn conn(&self) -> ConnView {
        arbitrary()
    }

    /// Whether the connection is in order.
    open spec fn ok(&self) -> bool {
        true
    }

    /// Whether nothing but the connection has changed.
    open spec fn kin(before: Self, after: Self) -> bool {
        true
    }

    /// Whether all events were dealt with.
    open spec fn settles(before: Self, after: Self) -> bool {
        true
    }

    /// The connection.
    fn connection(&mut self) -> (r: &mut Conn<ServerRole>)
        requires
            old(self).ok(),
        ensures
            r.wf(),
            r@ == old(self).conn(),
            final(self).conn() == final(r)@,
            final(r).wf() ==> final(self).ok(),
            Self::kin(*old(self), *final(self)),
    ;

    /// Deals with all events, and says how many there were.
    fn drain_events(&mut self) -> (r: usize)
        requires
            old(self).ok(),
        ensures
            final(self).ok(),
            r == old(self).conn().ingress.events.len(),
            final(self).conn().ingress.events.len() == 0,
            final(self).conn().ingress.input == old(self).conn().ingress.input,
            Self::settles(*old(self), *final(self)),
    ;
}

/// A connection that is served, with who answers its requests.
pub struct Serving<'a, S> {
    pub state: &'a mut ConnectionState,
    pub sink: &'a mut S,
    pub limits: Limits,
}

impl<'a, S: EventSink> Transport for Serving<'a, S> {
    open spec fn conn(&self) -> ConnView {
        self.state@.conn
    }

    open spec fn ok(&self) -> bool {
        self.state.wf()
    }

    open spec fn kin(before: Self, after: Self) -> bool {
        &&& after.state@ == before.state@.with_conn(after.state@.conn)
        &&& *after.sink == *before.sink
        &&& after.limits == before.limits
    }

    open spec fn settles(before: Self, after: Self) -> bool {
        &&& after.limits == before.limits
        &&& exists|replies: Seq<DispatchView>, sinks: Seq<S>| #[trigger]
            connection::dealt(
                before.state@,
                before.limits,
                replies,
                *before.sink,
                sinks,
                after.state@,
                *after.sink,
            )
    }

    fn connection(&mut self) -> (r: &mut Conn<ServerRole>) {
        self.state.connection_mut()
    }

    fn drain_events(&mut self) -> (r: usize) {
        let ghost before = self.state@;
        let ghost asked = *self.sink;
        let limits = self.limits;
        let r: usize = self.state.drain_events(limits, self.sink);
        proof {
            let (replies, sinks) = choose|replies: Seq<DispatchView>, sinks: Seq<S>| #[trigger]
                connection::dealt(before, limits, replies, asked, sinks, self.state@, *self.sink);
            assert(connection::dealt(
                before,
                limits,
                replies,
                asked,
                sinks,
                self.state@,
                *self.sink,
            ));
        }
        r
    }
}

/// How things went while all events were dealt with once: how they stood after that, how they
/// stood once the connection had gone on, and what its pool answered.
pub struct Round<T> {
    pub drained: T,
    pub resumed: T,
    pub chances: Seq<Chance>,
}

/// Whether all events were dealt with, again and again for as long as the connection had to
/// stop for want of room and got on; the result is that of the last try.
pub open spec fn driven<T: Transport>(
    start: T,
    result: Result<(), ConnError>,
    rounds: Seq<Round<T>>,
    end: T,
    r: Result<(), ConnError>,
) -> bool
    decreases rounds.len(),
{
    if rounds.len() == 0 {
        false
    } else {
        let round = rounds[0];
        &&& T::settles(start, round.drained)
        &&& if result == Err::<(), ConnError>(ConnError::Overload)
            && start.conn().ingress.events.len() != 0 {
            let (conn, again) = model::resumed(round.drained.conn(), true, round.chances);
            &&& T::kin(round.drained, round.resumed)
            &&& round.resumed.conn() == conn
            &&& driven(round.resumed, again, rounds.drop_first(), end, r)
        } else {
            end == round.drained && r == result
        }
    }
}

/// Whether bytes from the peer were taken, and all events were dealt with. `looked` is how
/// things stood once it was clear that the connection has not come to its end, `begun` how they
/// stood once the bytes were taken.
pub open spec fn took<T: Transport>(
    start: T,
    looked: T,
    begun: T,
    bytes: Seq<u8>,
    chances: Seq<Chance>,
    rounds: Seq<Round<T>>,
    end: T,
    r: Result<(), ConnError>,
) -> bool {
    let (conn, result) = model::ingested(start.conn(), true, bytes, chances);
    &&& T::kin(start, looked)
    &&& T::kin(looked, begun)
    &&& begun.conn() == conn
    &&& driven(begun, result, rounds, end, r)
}

/// Drives a connection.
pub struct Driver<'a, T> {
    transport: &'a mut T,
}

impl<'a, T: Transport> Driver<'a, T> {
    /// What is driven.
    pub closed spec fn subject(&self) -> T {
        *self.transport
    }

    pub open spec fn conn(&self) -> ConnView {
        self.subject().conn()
    }

    pub open spec fn ok(&self) -> bool {
        self.subject().ok()
    }

    pub fn new(transport: &'a mut T) -> (r: Self)
        requires
            old(transport).ok(),
        ensures
            r.subject() == *old(transport),
    {
        Driver { transport }
    }

    /// Takes bytes from the peer, and deals with their events. What finds no room is tried
    /// again once events were dealt with. A connection that has come to its end takes
    /// nothing.
    pub fn ingest(&mut self, bytes: &[u8]) -> (r: Result<(), ConnError>)
        requires
            old(self).ok(),
        ensures
            final(self).ok(),
            old(self).conn().goaway_sent || old(self).conn().goaway_received is Some ==> r is Ok
                && final(self).conn() == old(self).conn() && T::kin(
                old(self).subject(),
                final(self).subject(),
            ),
            !old(self).conn().goaway_sent && old(self).conn().goaway_received is None
                ==> final(self).conn().ingress.events.len() == 0 && exists|
                looked: T,
                begun: T,
                chances: Seq<Chance>,
                rounds: Seq<Round<T>>,
            | #[trigger]
                took(
                    old(self).subject(),
                    looked,
                    begun,
                    bytes@,
                    chances,
                    rounds,
                    final(self).subject(),
                    r,
                ),
    {
        let ghost start = self.subject();
        if self.at_end() {
            return Ok(());
        }
        let ghost looked = self.subject();
        let ghost taken = bytes@;
        let result = self.transport.connection().ingest(bytes);
        let ghost begun = self.subject();
        let ghost chances = choose|chances: Seq<Chance>|
            (begun.conn(), result) == #[trigger] model::ingested(
                start.conn(),
                true,
                taken,
                chances,
            );
        proof {
            role::lemma_server();
            assert((begun.conn(), result) == model::ingested(start.conn(), true, taken, chances));
        }
        let r = self.drain(result);
        proof {
            let rounds = choose|rounds: Seq<Round<T>>| #[trigger]
                driven(begun, result, rounds, self.subject(), r);
            assert(took(start, looked, begun, taken, chances, rounds, self.subject(), r));
        }
        r
    }

    /// Takes bytes that the caller gives away.
    pub fn ingest_retained(&mut self, bytes: Vec<u8>) -> (r: Result<(), ConnError>)
        requires
            old(self).ok(),
        ensures
            final(self).ok(),
            old(self).conn().goaway_sent || old(self).conn().goaway_received is Some ==> r is Ok
                && final(self).conn() == old(self).conn() && T::kin(
                old(self).subject(),
                final(self).subject(),
            ),
            !old(self).conn().goaway_sent && old(self).conn().goaway_received is None
                ==> final(self).conn().ingress.events.len() == 0 && exists|
                looked: T,
                begun: T,
                chances: Seq<Chance>,
                rounds: Seq<Round<T>>,
            | #[trigger]
                took(
                    old(self).subject(),
                    looked,
                    begun,
                    bytes@,
                    chances,
                    rounds,
                    final(self).subject(),
                    r,
                ),
    {
        let ghost start = self.subject();
        if self.at_end() {
            return Ok(());
        }
        let ghost looked = self.subject();
        let ghost taken = bytes@;
        let result = self.transport.connection().ingest_retained(bytes);
        let ghost begun = self.subject();
        let ghost chances = choose|chances: Seq<Chance>|
            (begun.conn(), result) == #[trigger] model::ingested(
                start.conn(),
                true,
                taken,
                chances,
            );
        proof {
            role::lemma_server();
            assert((begun.conn(), result) == model::ingested(start.conn(), true, taken, chances));
        }
        let r = self.drain(result);
        proof {
            let rounds = choose|rounds: Seq<Round<T>>| #[trigger]
                driven(begun, result, rounds, self.subject(), r);
            assert(took(start, looked, begun, taken, chances, rounds, self.subject(), r));
        }
        r
    }

    fn at_end(&mut self) -> (r: bool)
        requires
            old(self).ok(),
        ensures
            final(self).ok(),
            final(self).conn() == old(self).conn(),
            T::kin(old(self).subject(), final(self).subject()),
            r == (old(self).conn().goaway_sent || old(self).conn().goaway_received is Some),
    {
        let connection = self.transport.connection();
        connection.goaway_sent() || connection.goaway_received().is_some()
    }

    fn drain(&mut self, result: Result<(), ConnError>) -> (r: Result<(), ConnError>)
        requires
            old(self).ok(),
        ensures
            final(self).ok(),
            final(self).conn().ingress.events.len() == 0,
            exists|rounds: Seq<Round<T>>| #[trigger]
                driven(old(self).subject(), result, rounds, final(self).subject(), r),
    {
        let ghost start = self.subject();
        let ghost mut rounds: Seq<Round<T>> = Seq::empty();
        let mut current: Result<(), ConnError> = result;
        let mut again: bool = false;
        proof {
            assert forall|more: Seq<Round<T>>, end: T, r: Result<(), ConnError>| #[trigger]
                driven(start, result, more, end, r) implies driven(
                start,
                result,
                rounds + more,
                end,
                r,
            ) by {
                assert(rounds + more =~= more);
            }
        }
        loop
            invariant
                self.ok(),
                start == old(self).subject(),
                forall|more: Seq<Round<T>>, end: T, r: Result<(), ConnError>| #[trigger]
                    driven(self.subject(), current, more, end, r) ==> driven(
                        start,
                        result,
                        rounds + more,
                        end,
                        r,
                    ),
            decreases
                    if again {
                        0int
                    } else {
                        1int
                    },
                    self.conn().ingress.input.bytes().len() + (if self.conn().ingress.events.len()
                        > 0 {
                        1int
                    } else {
                        0int
                    }),
        {
            let ghost at = self.subject();
            let ghost now = current;
            let drained: usize = self.transport.drain_events();
            let ghost settled = self.subject();
            let ghost mut last = Round { drained: settled, resumed: settled, chances: Seq::empty() };
            let mut stop: bool = true;
            if let Err(error) = current {
                if error == ConnError::Overload && drained != 0 {
                    stop = false;
                }
            }
            if stop {
                proof {
                    assert(driven(at, now, seq![last], settled, now));
                    assert(driven(start, result, rounds + seq![last], settled, now));
                }
                return current;
            }
            let connection = self.transport.connection();
            current = connection.resume();
            proof {
                role::lemma_server();
                let next = self.subject();
                let tried = choose|tried: Seq<Chance>|
                    (self.conn(), current) == #[trigger] model::resumed(
                        settled.conn(),
                        ServerRole::IS_SERVER,
                        tried,
                    );
                progress::law_events_cost_input(settled.conn(), ServerRole::IS_SERVER, tried);
                last = Round { chances: tried, resumed: next, ..last };
                assert forall|more: Seq<Round<T>>, end: T, r: Result<(), ConnError>| #[trigger]
                    driven(next, current, more, end, r) implies driven(
                    start,
                    result,
                    rounds.push(last) + more,
                    end,
                    r,
                ) by {
                    let longer = seq![last] + more;
                    assert(longer.drop_first() =~= more);
                    assert(driven(at, now, longer, end, r));
                    assert(rounds + longer =~= rounds.push(last) + more);
                }
                rounds = rounds.push(last);
            }
            again = true;
        }
    }
}

} // verus!
