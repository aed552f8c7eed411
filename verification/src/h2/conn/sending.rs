//! What is handed to a connection to be sent, in the order in which it is.

use crate::h2::conn::model;
use crate::h2::conn::model::ConnView;
use crate::h2::hpack::FieldView;
use vstd::prelude::*;

verus! {

/// Something that is handed to the connection: bytes, of which it takes as many as go, or a
/// list of fields.
pub enum Act {
    Data { stream: u32, bytes: Seq<u8>, end_stream: bool },
    Fields { stream: u32, list: Seq<FieldView>, end_stream: bool },
}

/// The connection after an act.
pub open spec fn acted(c: ConnView, a: Act) -> ConnView {
    match a {
        Act::Data { stream, bytes, end_stream } => model::data_sent(
            c,
            stream,
            bytes,
            end_stream,
        ).0,
        Act::Fields { stream, list, end_stream } => model::response_sent(
            c,
            stream,
            list,
            end_stream,
        ).0,
    }
}

/// The bytes that an act sends on a stream.
pub open spec fn carried(c: ConnView, a: Act, id: u32) -> Seq<u8> {
    match a {
        Act::Data { stream, bytes, end_stream } => if stream != id {
            Seq::empty()
        } else {
            match model::data_sent(c, stream, bytes, end_stream).1 {
                Ok(n) => bytes.take(n as int),
                Err(_) => Seq::empty(),
            }
        },
        Act::Fields { .. } => Seq::empty(),
    }
}

/// The connection after acts, one after the other.
pub open spec fn performed(c: ConnView, acts: Seq<Act>) -> ConnView
    decreases acts.len(),
{
    if acts.len() == 0 {
        c
    } else {
        performed(acted(c, acts[0]), acts.drop_first())
    }
}

/// The bytes that acts send on a stream, one after the other.
pub open spec fn body_sent(c: ConnView, acts: Seq<Act>, id: u32) -> Seq<u8>
    decreases acts.len(),
{
    if acts.len() == 0 {
        Seq::empty()
    } else {
        carried(c, acts[0], id) + body_sent(acted(c, acts[0]), acts.drop_first(), id)
    }
}

/// Acts after one other.
pub proof fn lemma_first(c: ConnView, a: Act, more: Seq<Act>)
    ensures
        performed(c, seq![a] + more) == performed(acted(c, a), more),
        forall|id: u32|
            #[trigger] body_sent(c, seq![a] + more, id) == carried(c, a, id) + body_sent(
                acted(c, a),
                more,
                id,
            ),
{
    assert((seq![a] + more).drop_first() =~= more);
}

/// Acts after others.
pub proof fn lemma_after(c: ConnView, acts: Seq<Act>, more: Seq<Act>)
    ensures
        performed(c, acts + more) == performed(performed(c, acts), more),
        forall|id: u32|
            #[trigger] body_sent(c, acts + more, id) == body_sent(c, acts, id) + body_sent(
                performed(c, acts),
                more,
                id,
            ),
    decreases acts.len(),
{
    if acts.len() == 0 {
        assert(acts + more =~= more);
        assert forall|id: u32| #[trigger]
            body_sent(c, acts + more, id) == body_sent(c, acts, id) + body_sent(
            performed(c, acts),
            more,
            id,
        ) by {
            assert(Seq::<u8>::empty() + body_sent(c, more, id) =~= body_sent(c, more, id));
        }
    } else {
        let a = acts[0];
        let rest = acts.drop_first();
        assert(acts =~= seq![a] + rest);
        assert(acts + more =~= seq![a] + (rest + more));
        lemma_first(c, a, rest);
        lemma_first(c, a, rest + more);
        lemma_after(acted(c, a), rest, more);
        assert forall|id: u32| #[trigger]
            body_sent(c, acts + more, id) == body_sent(c, acts, id) + body_sent(
            performed(c, acts),
            more,
            id,
        ) by {
            let x = carried(c, a, id);
            let y = body_sent(acted(c, a), rest, id);
            let z = body_sent(performed(acted(c, a), rest), more, id);
            assert(body_sent(c, seq![a] + (rest + more), id) == x + (body_sent(
                acted(c, a),
                rest + more,
                id,
            )));
            assert(body_sent(acted(c, a), rest + more, id) == y + z);
            assert(x + (y + z) =~= (x + y) + z);
            assert(body_sent(c, seq![a] + rest, id) == x + y);
        }
    }
}

} // verus!
