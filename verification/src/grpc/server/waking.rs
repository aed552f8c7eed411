//! Answers that wait for a window go on as soon as it opens.

use crate::grpc::frame;
use crate::grpc::server::limits::Limits;
use crate::grpc::server::model;
use crate::grpc::server::model::{CallsView, Driven, PendingView, Round, ServerView};
use crate::grpc::server::reply;
use crate::h2::conn;
use crate::h2::conn::model::ConnView;
use crate::h2::server::progress;
use vstd::prelude::*;

verus! {

/// Whether of the first message of an answer something is left.
pub open spec fn under_way(p: PendingView) -> bool {
    p.messages.len() > 0 ==> p.frame_pos < p.messages[0].len() + 5
}

/// Whether of the first message of every answer something is left.
pub open spec fn held(v: CallsView) -> bool {
    forall|id: u32| #[trigger]
        v.has(id) ==> (v.calls[id].pending matches Some(p) ==> under_way(p))
}

#[verifier::rlimit(60)]
proof fn lemma_messages(c: ConnView, id: u32, p: PendingView, len: usize)
    requires
        progress::sound(c),
        under_way(p),
    ensures
        ({
            let (d, left, n, out) = model::messages_driven(c, id, p, len);
            &&& progress::narrower(c, d)
            &&& under_way(left)
            &&& out == Driven::Blocked ==> progress::shut(d, id)
        }),
    decreases
            p.messages.len(),
            (if p.messages.len() > 0 {
                p.messages[0].len() + frame::PREFIX_LEN - p.frame_pos
            } else {
                0
            }),
{
    if p.messages.len() == 0 {
        if let Some(list) = p.trailers {
            progress::lemma_fields_narrow(c, id, list, true);
        }
    } else if p.messages[0].len() <= u32::MAX && p.messages[0].len() + frame::PREFIX_LEN
        <= usize::MAX {
        let whole = frame::framed(reply::plain(p.messages[0]));
        assert(whole.len() == p.messages[0].len() + frame::PREFIX_LEN);
        let rest = whole.skip(p.frame_pos as int);
        progress::lemma_sending_narrows(c, id, rest, false);
        conn::model::lemma_sending_keeps_ingress(c, id);
        let (next, r) = conn::model::data_sent(c, id, rest, false);
        if let Ok(n) = r {
            if n > 0 {
                let sent = PendingView { remaining: model::less(p.remaining, n), ..p };
                if p.frame_pos + n == whole.len() {
                    lemma_messages(
                        next,
                        id,
                        PendingView {
                            messages: p.messages.drop_first(),
                            batches: model::shorter(p.batches),
                            frame_pos: 0,
                            ..sent
                        },
                        model::less(len, n),
                    );
                } else {
                    lemma_messages(
                        next,
                        id,
                        PendingView { frame_pos: (p.frame_pos + n) as nat, ..sent },
                        model::less(len, n),
                    );
                }
            }
        }
    }
}

#[verifier::rlimit(60)]
proof fn lemma_turn(v: CallsView, c: ConnView)
    requires
        progress::sound(c),
        held(v),
        v.queue.len() > 0,
    ensures
        ({
            let (w, d) = model::turn(v, c);
            let id = v.queue[0];
            &&& progress::narrower(c, d)
            &&& held(w)
            &&& w.queue == v.queue.drop_first() || (w.queue == v.queue.drop_first().push(id)
                && progress::shut(d, id))
        }),
{
    reveal(model::turn);
    let id = v.queue[0];
    let (w, d) = model::turn(v, c);
    if v.has(id) {
        if let Some(p) = v.calls[id].pending {
            progress::lemma_fields_narrow(c, id, p.fields, false);
            let (next, r) = conn::model::response_sent(c, id, p.fields, false);
            if p.headers_sent {
                lemma_messages(c, id, p, v.pending_len);
            } else if r is Ok {
                lemma_messages(
                    next,
                    id,
                    PendingView { headers_sent: true, ..p },
                    v.pending_len,
                );
            }
        }
        assert forall|x: u32| #[trigger] w.has(x) implies (w.calls[x].pending matches Some(p)
            ==> under_way(p)) by {
            if x != id {
                assert(v.has(x) && w.calls[x] == v.calls[x]);
            }
        }
    } else {
        assert(w.calls == v.calls);
        assert forall|x: u32| #[trigger] w.has(x) implies (w.calls[x].pending matches Some(p)
            ==> under_way(p)) by {
            assert(v.has(x));
        }
    }
}

/// Once all calls that have something to send had their turn, what still waits waits for a window:
/// on its stream nothing can be sent, or the stream is gone.
pub proof fn law_answers_wait_for_windows_only(v: CallsView, c: ConnView, n: nat)
    requires
        progress::sound(c),
        held(v),
        n <= v.queue.len(),
        forall|i: int| n <= i < v.queue.len() ==> progress::shut(c, #[trigger] v.queue[i]),
    ensures
        ({
            let (w, d) = model::flushed(v, c, n);
            &&& forall|i: int| 0 <= i < w.queue.len() ==> progress::shut(d, #[trigger] w.queue[i])
            &&& progress::narrower(c, d)
        }),
    decreases n,
{
    if n > 0 && v.queue.len() > 0 {
        lemma_turn(v, c);
        let (w, d) = model::turn(v, c);
        let id = v.queue[0];
        assert forall|i: int| n - 1 <= i < w.queue.len() implies progress::shut(
            d,
            #[trigger] w.queue[i],
        ) by {
            if i < v.queue.len() - 1 {
                assert(w.queue[i] == v.queue[i + 1]);
                assert(progress::shut(c, v.queue[i + 1]));
            } else {
                assert(w.queue[i] == id);
            }
        }
        law_answers_wait_for_windows_only(w, d, (n - 1) as nat);
    }
}

/// Whenever bytes of the peer were dealt with, no answer is left waiting that could be sent.
pub proof fn law_open_windows_wake_answers(v: ServerView, l: Limits, rounds: Seq<Round>)
    requires
        rounds.len() > 0,
        ({
            let next = model::handled(v, v.conn.ingress.events.len(), l, rounds[0].scripts);
            progress::sound(next.conn) && held(next.calls)
        }),
    ensures
        model::driven(v, Ok(()), l, rounds) matches Some((w, r)) && r is None && forall|i: int|
            0 <= i < w.calls.queue.len() ==> progress::shut(w.conn, #[trigger] w.calls.queue[i]),
{
    let next = model::handled(v, v.conn.ingress.events.len(), l, rounds[0].scripts);
    law_answers_wait_for_windows_only(next.calls, next.conn, next.calls.queue.len());
}

} // verus!
