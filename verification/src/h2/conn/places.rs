//! Who holds the places of the pools: the events that wait, the block of header fields that is
//! being read, and whoever took events before.

use crate::h2::config::ValidatedView;
use crate::h2::conn::model;
use crate::h2::conn::model::{ConnView, Outcome};
use crate::h2::event;
use crate::h2::event::EventView;
use crate::h2::ingress::IngressView;
use vstd::prelude::*;

verus! {

/// Whether an event holds a place, for data or for header fields.
pub open spec fn holds(e: EventView, data: bool) -> bool {
    if data {
        event::holds_data(e)
    } else {
        event::holds_headers(e)
    }
}

/// How many events hold a place, for data or for header fields.
#[verifier::opaque]
pub open spec fn held(events: Seq<EventView>, data: bool) -> nat
    decreases events.len(),
{
    if events.len() == 0 {
        0
    } else {
        held(events.drop_last(), data) + (if holds(events.last(), data) {
            1nat
        } else {
            0
        })
    }
}

/// How many places for data are out with whoever took events.
pub open spec fn lent_data(v: IngressView) -> int {
    v.data_places.out - held(v.events, true)
}

/// How many places for header fields are out with whoever took events.
pub open spec fn lent_headers(v: IngressView) -> int {
    v.header_places.out - held(v.events, false) - (if v.active is Some {
        1int
    } else {
        0
    })
}

/// Whether as many places are out with whoever took events as before.
pub open spec fn squared(v: ConnView, o: Outcome) -> bool {
    lent_data(o.0.ingress) == lent_data(v.ingress) && lent_headers(o.0.ingress) == lent_headers(
        v.ingress,
    )
}

pub proof fn lemma_one_more_event(events: Seq<EventView>)
    ensures
        forall|e: EventView, data: bool| #[trigger]
            held(events.push(e), data) == held(events, data) + (if holds(e, data) {
                1nat
            } else {
                0
            }),
{
    reveal_with_fuel(held, 2);
    assert forall|e: EventView, data: bool| #[trigger]
        held(events.push(e), data) == held(events, data) + (if holds(e, data) {
            1nat
        } else {
            0
        }) by {
        assert(events.push(e).drop_last() =~= events);
    }
}

proof fn lemma_without_first(events: Seq<EventView>, data: bool)
    requires
        events.len() > 0,
    ensures
        held(events, data) == held(events.drop_first(), data) + (if holds(events[0], data) {
            1nat
        } else {
            0
        }),
    decreases events.len(),
{
    reveal_with_fuel(held, 2);
    if events.len() > 1 {
        lemma_without_first(events.drop_last(), data);
        assert(events.drop_last().drop_first() =~= events.drop_first().drop_last());
        assert(events.drop_last()[0] == events[0]);
    } else {
        assert(events.drop_last() =~= Seq::empty());
        assert(events.drop_first() =~= Seq::empty());
    }
}

proof fn lemma_nothing_held(data: bool)
    ensures
        held(Seq::empty(), data) == 0,
{
    reveal_with_fuel(held, 1);
}

/// A new connection has lent nothing.
pub proof fn law_nothing_is_lent_at_first(c: ValidatedView, preface: bool, first_local: u32)
    ensures
        lent_data(model::initial(c, preface, first_local).ingress) == 0,
        lent_headers(model::initial(c, preface, first_local).ingress) == 0,
{
    lemma_nothing_held(true);
    lemma_nothing_held(false);
    lemma_one_more_event(Seq::empty());
    assert(seq![EventView::PrefaceComplete] =~= Seq::<EventView>::empty().push(
        EventView::PrefaceComplete,
    ));
}

/// Whoever takes an event takes the place that it holds, and taking it back leaves things
/// as they were.
pub proof fn law_places_come_back(v: IngressView)
    requires
        v.events.len() > 0,
    ensures
        ({
            let taken = IngressView { events: v.events.drop_first(), ..v };
            &&& lent_data(taken) == lent_data(v) + (if event::holds_data(v.events[0]) {
                1int
            } else {
                0
            })
            &&& lent_headers(taken) == lent_headers(v) + (if event::holds_headers(v.events[0]) {
                1int
            } else {
                0
            })
            &&& lent_data(taken.event_back(v.events[0])) == lent_data(v)
            &&& lent_headers(taken.event_back(v.events[0])) == lent_headers(v)
        }),
{
    lemma_without_first(v.events, true);
    lemma_without_first(v.events, false);
}

/// Where no event waits, no block is being read and all places came back, the pools have all
/// their places to give.
pub proof fn law_all_places_are_left(v: IngressView)
    requires
        v.events.len() == 0,
        v.active is None,
        lent_data(v) == 0,
        lent_headers(v) == 0,
    ensures
        v.data_places.left() == v.data_places.limit,
        v.header_places.left() == v.header_places.limit,
{
    assert(v.events =~= Seq::empty());
    lemma_nothing_held(true);
    lemma_nothing_held(false);
}

} // verus!
