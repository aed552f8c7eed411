//! Messages that wait for a window go on as soon as it opens.

use crate::grpc::client::model;
use crate::grpc::client::model::{CallsView, ClientView, PendingView, Round};
use crate::grpc::status::StatusView;
use crate::h2::conn;
use crate::h2::conn::model::ConnView;
use crate::h2::error::ConnError;
use crate::h2::server::progress;
use vstd::prelude::*;

verus! {

/// Whether messages are such as the machine holds.
pub open spec fn held(v: CallsView) -> bool {
    forall|id: u32, i: int|
        #![trigger v.calls[id].requests[i]]
        v.has(id) && 0 <= i < v.calls[id].requests.len() ==> v.calls[id].requests[i].bytes.len()
            <= usize::MAX
}

proof fn lemma_request(c: ConnView, id: u32, p: PendingView)
    requires
        progress::sound(c),
        p.bytes.len() <= usize::MAX,
    ensures
        ({
            let (d, left, done) = model::request_driven(c, id, p);
            &&& progress::narrower(c, d)
            &&& left.bytes == p.bytes
            &&& done == Ok::<bool, ConnError>(false) ==> progress::shut(d, id)
        }),
    decreases p.bytes.len() - p.pos,
{
    if p.pos < p.bytes.len() {
        let rest = p.bytes.skip(p.pos as int);
        progress::lemma_sending_narrows(c, id, rest, p.end_stream);
        conn::model::lemma_sending_keeps_ingress(c, id);
        let (next, r) = conn::model::data_sent(c, id, rest, p.end_stream);
        if let Ok(n) = r {
            if n > 0 {
                lemma_request(next, id, PendingView { pos: (p.pos + n) as nat, ..p });
            }
        }
    }
}

proof fn lemma_call(c: ConnView, id: u32, requests: Seq<PendingView>)
    requires
        progress::sound(c),
        forall|i: int| 0 <= i < requests.len() ==> (#[trigger] requests[i]).bytes.len()
            <= usize::MAX,
    ensures
        ({
            let (d, left, done) = model::call_driven(c, id, requests);
            &&& progress::narrower(c, d)
            &&& done == Ok::<bool, ConnError>(false) ==> progress::shut(d, id)
            &&& forall|i: int| 0 <= i < left.len() ==> (#[trigger] left[i]).bytes.len()
                <= usize::MAX
        }),
    decreases requests.len(),
{
    if requests.len() > 0 {
        lemma_request(c, id, requests[0]);
        let (next, p, done) = model::request_driven(c, id, requests[0]);
        if done == Ok::<bool, ConnError>(true) {
            let rest = requests.drop_first();
            assert forall|i: int| 0 <= i < rest.len() implies (#[trigger] rest[i]).bytes.len()
                <= usize::MAX by {
                assert(rest[i] == requests[i + 1]);
            }
            lemma_call(next, id, rest);
        } else {
            let left = requests.update(0, p);
            assert forall|i: int| 0 <= i < left.len() implies (#[trigger] left[i]).bytes.len()
                <= usize::MAX by {
                if i > 0 {
                    assert(left[i] == requests[i]);
                }
            }
        }
    }
}

proof fn lemma_turn(v: CallsView, c: ConnView)
    requires
        progress::sound(c),
        held(v),
        v.pending.len() > 0,
    ensures
        ({
            let (w, d) = model::turn(v, c);
            let id = v.pending[0];
            &&& progress::narrower(c, d)
            &&& held(w)
            &&& w.pending == v.pending.drop_first() || (w.pending == v.pending.drop_first().push(id)
                && progress::shut(d, id))
        }),
{
    let id = v.pending[0];
    let (w, d) = model::turn(v, c);
    if v.has(id) {
        let requests = v.calls[id].requests;
        assert forall|i: int| 0 <= i < requests.len() implies (#[trigger] requests[i]).bytes.len()
            <= usize::MAX by {
            assert(v.calls[id].requests[i] == requests[i]);
        }
        lemma_call(c, id, requests);
        assert forall|x: u32, i: int|
            #![trigger w.calls[x].requests[i]]
            w.has(x) && 0 <= i < w.calls[x].requests.len() implies w.calls[x].requests[i].bytes.len()
            <= usize::MAX by {
            if x != id {
                assert(w.calls[x] == v.calls[x]);
                assert(v.calls[x].requests[i].bytes.len() <= usize::MAX);
            }
        }
    } else {
        assert(w.calls == v.calls);
    }
}

/// Once all calls that have something to send had their turn, what still waits waits for a window:
/// on its stream nothing can be sent, or the stream is gone.
pub proof fn law_messages_wait_for_windows_only(v: CallsView, c: ConnView, n: nat)
    requires
        progress::sound(c),
        held(v),
        n <= v.pending.len(),
        forall|i: int| n <= i < v.pending.len() ==> progress::shut(c, #[trigger] v.pending[i]),
    ensures
        ({
            let (w, d) = model::flushed(v, c, n);
            &&& forall|i: int| 0 <= i < w.pending.len() ==> progress::shut(
                d,
                #[trigger] w.pending[i],
            )
            &&& progress::narrower(c, d)
        }),
    decreases n,
{
    if n > 0 && v.pending.len() > 0 {
        lemma_turn(v, c);
        let (w, d) = model::turn(v, c);
        let id = v.pending[0];
        assert forall|i: int| n - 1 <= i < w.pending.len() implies progress::shut(
            d,
            #[trigger] w.pending[i],
        ) by {
            if i < v.pending.len() - 1 {
                assert(w.pending[i] == v.pending[i + 1]);
                assert(progress::shut(c, v.pending[i + 1]));
            } else {
                assert(w.pending[i] == id);
            }
        }
        law_messages_wait_for_windows_only(w, d, (n - 1) as nat);
    }
}

/// Whenever bytes of the peer were dealt with, no message is left waiting that could be sent.
pub proof fn law_open_windows_wake_messages(
    v: ClientView,
    rounds: Seq<Round>,
    next: ClientView,
)
    requires
        rounds.len() > 0,
        model::handled(v, v.conn.ingress.events.len(), rounds[0].events) == (
            next,
            Ok::<(), StatusView>(()),
        ),
        progress::sound(next.conn),
        held(next.calls),
    ensures
        model::driven(v, Ok(()), rounds) matches Some((w, r)) && r is Ok && forall|i: int|
            0 <= i < w.calls.pending.len() ==> progress::shut(
                w.conn,
                #[trigger] w.calls.pending[i],
            ),
{
    law_messages_wait_for_windows_only(next.calls, next.conn, next.calls.pending.len());
}

} // verus!
