//! What holds of a server as a whole.

use crate::collections;
use crate::collections::Room;
use crate::grpc::client;
use crate::grpc::frame;
use crate::grpc::frame::FrameView;
use crate::grpc::headers;
use crate::grpc::laws;
use crate::h2::conn::sending;
use crate::h2::conn::sending::Act;
use crate::grpc::server::limits::Limits;
use crate::grpc::server::model;
use crate::grpc::server::model::{
    CallView, CallsView, Driven, Ended, PendingView, Said, Script, ServerView, StreamView,
};
use crate::grpc::server::reply;
use crate::grpc::server::reply::{ReplyView, StreamMode};
use crate::grpc::status::StatusView;
use crate::h2::conn;
use crate::h2::conn::model::ConnView;
use crate::h2::event::EventView;
use crate::h2::hpack::FieldView;
use vstd::prelude::*;

verus! {

/// Messages as the bytes of a stream.
pub open spec fn wire(messages: Seq<Seq<u8>>) -> Seq<u8>
    decreases messages.len(),
{
    if messages.len() == 0 {
        Seq::empty()
    } else {
        frame::framed(reply::plain(messages[0])) + wire(messages.drop_first())
    }
}

/// The bytes of an answer that are still to be sent.
pub open spec fn waiting(p: PendingView) -> Seq<u8> {
    wire(p.messages).skip(p.frame_pos as int)
}

/// Whether batches are made up of `n` messages, and none is empty.
pub open spec fn batched(batches: Seq<nat>, n: int) -> bool
    decreases batches.len(),
{
    if batches.len() == 0 {
        n == 0
    } else {
        0 < batches[0] <= n && batched(batches.drop_first(), n - batches[0])
    }
}

/// One message fewer.
proof fn lemma_shorter(batches: Seq<nat>, n: int)
    requires
        batched(batches, n),
        n > 0,
    ensures
        batched(model::shorter(batches), n - 1),
        model::shorter(batches).len() <= batches.len(),
{
    let left = model::shorter(batches);
    if batches[0] > 1 {
        assert(left.drop_first() =~= batches.drop_first());
    }
}

/// A batch more.
proof fn lemma_with_batch(batches: Seq<nat>, n: int, more: nat)
    requires
        batched(batches, n),
    ensures
        batched(model::with_batch(batches, more), n + more),
    decreases batches.len(),
{
    if more > 0 {
        let all = batches.push(more);
        if batches.len() == 0 {
            assert(all.drop_first() =~= batches);
        } else {
            lemma_with_batch(batches.drop_first(), n - batches[0], more);
            assert(all.drop_first() =~= batches.drop_first().push(more));
        }
    }
}

/// Whether no more of a message was sent than there is of it, and the counts of the bytes that
/// are left and of the batches are right.
pub open spec fn pending_ok(p: PendingView) -> bool {
    &&& batched(p.batches, p.messages.len() as int)
    &&& p.frame_pos <= (if p.messages.len() > 0 {
        frame::framed(reply::plain(p.messages[0])).len()
    } else {
        0
    })
    &&& p.remaining == waiting(p).len()
}

proof fn lemma_wire_first(messages: Seq<Seq<u8>>)
    requires
        messages.len() > 0,
    ensures
        frame::framed(reply::plain(messages[0])).len() == messages[0].len() + frame::PREFIX_LEN,
        wire(messages).len() == messages[0].len() + frame::PREFIX_LEN + wire(
            messages.drop_first(),
        ).len(),
{
}

/// Messages that are kept behind others are sent behind them.
proof fn lemma_wire_after(a: Seq<Seq<u8>>, b: Seq<Seq<u8>>)
    ensures
        wire(a + b) == wire(a) + wire(b),
    decreases a.len(),
{
    if a.len() == 0 {
        assert(a + b =~= b);
        assert(Seq::<u8>::empty() + wire(b) =~= wire(b));
    } else {
        lemma_wire_after(a.drop_first(), b);
        assert((a + b).drop_first() =~= a.drop_first() + b);
        let x = frame::framed(reply::plain(a[0]));
        assert(x + (wire(a.drop_first()) + wire(b)) =~= (x + wire(a.drop_first())) + wire(b));
    }
}

/// The messages of an answer are sent in order, and then its end: what was sent of them and
/// what is left make up the whole, and the counts follow.
#[verifier::spinoff_prover]
#[verifier::rlimit(40)]
proof fn lemma_messages(c: ConnView, id: u32, p: PendingView, len: usize) -> (acts: Seq<Act>)
    requires
        pending_ok(p),
        p.remaining <= len,
    ensures
        sending::performed(c, acts) == model::messages_driven(c, id, p, len).0,
        forall|other: u32|
            other != id ==> #[trigger] sending::body_sent(c, acts, other) == Seq::<u8>::empty(),
        ({
            let (_, left, n, out) = model::messages_driven(c, id, p, len);
            &&& pending_ok(left)
            &&& n == len - (p.remaining - left.remaining)
            &&& left.remaining <= p.remaining
            &&& left.batches.len() <= p.batches.len()
            &&& left.fields == p.fields && left.trailers == p.trailers
            &&& left.headers_sent == p.headers_sent
            &&& sending::body_sent(c, acts, id) + waiting(left) == waiting(p)
            &&& out == Driven::Complete ==> left.messages.len() == 0 && p.trailers is Some
                && acts.len() > 0 && acts.last() == (Act::Fields {
                stream: id,
                list: p.trailers->0,
                end_stream: true,
            })
            &&& out == Driven::Idle ==> left.messages.len() == 0 && p.trailers is None
        }),
    decreases
            p.messages.len(),
            (if p.messages.len() > 0 {
                p.messages[0].len() + frame::PREFIX_LEN - p.frame_pos
            } else {
                0
            }),
{
    let e = Seq::<u8>::empty();
    assert(e + waiting(p) =~= waiting(p));
    if p.messages.len() == 0 {
        match p.trailers {
            None => Seq::empty(),
            Some(list) => {
                let a = Act::Fields { stream: id, list, end_stream: true };
                sending::lemma_first(c, a, Seq::empty());
                assert(e + e =~= e);
                let acts = seq![a] + Seq::empty();
                assert(acts =~= seq![a]);
                acts
            },
        }
    } else if p.messages[0].len() > u32::MAX || p.messages[0].len() + frame::PREFIX_LEN
        > usize::MAX {
        Seq::empty()
    } else {
        conn::model::lemma_sending_keeps_ingress(c, id);
        lemma_wire_first(p.messages);
        let whole = frame::framed(reply::plain(p.messages[0]));
        let rest = whole.skip(p.frame_pos as int);
        let a = Act::Data { stream: id, bytes: rest, end_stream: false };
        let (next, out) = conn::model::data_sent(c, id, rest, false);
        sending::lemma_first(c, a, Seq::empty());
        assert forall|other: u32|
            sending::carried(c, a, other) + e == sending::carried(c, a, other) by {
            assert(sending::carried(c, a, other) + e =~= sending::carried(c, a, other));
        }
        match out {
            Err(_) => seq![a] + Seq::empty(),
            Ok(n) => {
                if n == 0 {
                    assert(rest.take(0) =~= e);
                    seq![a] + Seq::empty()
                } else {
                    let sent = PendingView { remaining: model::less(p.remaining, n), ..p };
                    let moved = if p.frame_pos + n == whole.len() {
                        PendingView {
                            messages: p.messages.drop_first(),
                            batches: model::shorter(p.batches),
                            frame_pos: 0,
                            ..sent
                        }
                    } else {
                        PendingView { frame_pos: (p.frame_pos + n) as nat, ..sent }
                    };
                    lemma_shorter(p.batches, p.messages.len() as int);
                    assert(wire(p.messages) =~= whole + wire(p.messages.drop_first()));
                    assert(rest.take(n as int) + waiting(moved) =~= waiting(p));
                    let more = lemma_messages(next, id, moved, model::less(len, n));
                    sending::lemma_first(c, a, more);
                    let left = model::messages_driven(c, id, p, len).1;
                    let x = rest.take(n as int);
                    let y = sending::body_sent(next, more, id);
                    assert((x + y) + waiting(left) =~= x + (y + waiting(left)));
                    assert forall|other: u32| other != id implies #[trigger] sending::body_sent(
                        c,
                        seq![a] + more,
                        other,
                    ) == e by {
                        assert(sending::body_sent(next, more, other) == e);
                        assert(e + e =~= e);
                    }
                    let acts = seq![a] + more;
                    if more.len() > 0 {
                        assert(acts.last() == more.last());
                    }
                    acts
                }
            },
        }
    }
}

/// An answer is sent in order: its head, its messages, its end. What was sent of the messages
/// and what is left make up the whole, and an answer that is complete was sent whole.
pub proof fn law_answers_are_sent_in_order(c: ConnView, id: u32, p: PendingView, len: usize) -> (acts:
    Seq<Act>)
    requires
        pending_ok(p),
        p.remaining <= len,
    ensures
        sending::performed(c, acts) == model::response_driven(c, id, p, len).0,
        forall|other: u32|
            other != id ==> #[trigger] sending::body_sent(c, acts, other) == Seq::<u8>::empty(),
        !p.headers_sent ==> acts.len() > 0 && acts[0] == (Act::Fields {
            stream: id,
            list: p.fields,
            end_stream: false,
        }),
        ({
            let (_, left, n, out) = model::response_driven(c, id, p, len);
            &&& pending_ok(left)
            &&& n == len - (p.remaining - left.remaining)
            &&& left.remaining <= p.remaining
            &&& left.batches.len() <= p.batches.len()
            &&& left.fields == p.fields && left.trailers == p.trailers
            &&& sending::body_sent(c, acts, id) + waiting(left) == waiting(p)
            &&& out == Driven::Complete ==> waiting(left).len() == 0 && p.trailers is Some
                && acts.len() > 0 && acts.last() == (Act::Fields {
                stream: id,
                list: p.trailers->0,
                end_stream: true,
            })
            &&& out == Driven::Idle ==> waiting(left).len() == 0 && p.trailers is None
        }),
{
    let e = Seq::<u8>::empty();
    if p.headers_sent {
        lemma_messages(c, id, p, len)
    } else {
        let a = Act::Fields { stream: id, list: p.fields, end_stream: false };
        let (next, out) = conn::model::response_sent(c, id, p.fields, false);
        assert(e + e =~= e);
        match out {
            Err(_) => {
                sending::lemma_first(c, a, Seq::empty());
                assert(e + waiting(p) =~= waiting(p));
                seq![a] + Seq::empty()
            },
            Ok(_) => {
                let opened = PendingView { headers_sent: true, ..p };
                let more = lemma_messages(next, id, opened, len);
                sending::lemma_first(c, a, more);
                assert forall|x: u32| #[trigger] sending::body_sent(c, seq![a] + more, x)
                    == sending::body_sent(next, more, x) by {
                    assert(e + sending::body_sent(next, more, x) =~= sending::body_sent(
                        next,
                        more,
                        x,
                    ));
                }
                let acts = seq![a] + more;
                if more.len() > 0 {
                    assert(acts.last() == more.last());
                }
                acts
            },
        }
    }
}

/// What of a call is counted: the bytes of its request that wait, those of its answer, the messages
/// of its request, or the batches of its answer.
pub enum Kind {
    Buffered,
    Waiting,
    Messages,
    Batches,
}

/// What a call weighs.
pub open spec fn weight(c: CallView, kind: Kind) -> nat {
    match kind {
        Kind::Buffered => match c.stream {
            Some(s) => s.buffered_len as nat,
            None => 0,
        },
        Kind::Waiting => match c.pending {
            Some(p) => p.remaining as nat,
            None => 0,
        },
        Kind::Messages => match c.stream {
            Some(s) => s.messages.len(),
            None => 0,
        },
        Kind::Batches => match c.pending {
            Some(p) => p.batches.len(),
            None => 0,
        },
    }
}

/// What all calls weigh.
pub open spec fn total(calls: Map<u32, CallView>, kind: Kind) -> nat
    decreases calls.dom().len(),
    when calls.dom().finite()
{
    if calls.dom().len() == 0 {
        0
    } else {
        let id = calls.dom().choose();
        weight(calls[id], kind) + total(calls.remove(id), kind)
    }
}

proof fn lemma_total_without(calls: Map<u32, CallView>, id: u32, kind: Kind)
    requires
        calls.dom().finite(),
        calls.contains_key(id),
    ensures
        total(calls, kind) == weight(calls[id], kind) + total(calls.remove(id), kind),
    decreases calls.dom().len(),
{
    let first = calls.dom().choose();
    assert(calls.dom().contains(first));
    if first != id {
        lemma_total_without(calls.remove(first), id, kind);
        lemma_total_without(calls.remove(id), first, kind);
        assert(calls.remove(first).remove(id) =~= calls.remove(id).remove(first));
    }
}

proof fn lemma_total_with(calls: Map<u32, CallView>, id: u32, call: CallView, kind: Kind)
    requires
        calls.dom().finite(),
    ensures
        calls.contains_key(id) ==> total(calls.insert(id, call), kind) + weight(
            calls[id],
            kind,
        ) == total(calls, kind) + weight(call, kind),
        !calls.contains_key(id) ==> total(calls.insert(id, call), kind) == total(calls, kind)
            + weight(call, kind),
{
    lemma_total_without(calls.insert(id, call), id, kind);
    if calls.contains_key(id) {
        lemma_total_without(calls, id, kind);
        assert(calls.insert(id, call).remove(id) =~= calls.remove(id));
    } else {
        assert(calls.insert(id, call).remove(id) =~= calls);
    }
}

/// The bytes of all payloads.
pub open spec fn payload_len(list: Seq<FrameView>) -> nat {
    client::laws::payload_len(list)
}

proof fn lemma_payload_push(list: Seq<FrameView>, m: FrameView)
    ensures
        payload_len(list.push(m)) == payload_len(list) + m.payload.len(),
    decreases list.len(),
{
    reveal_with_fuel(client::laws::payload_len, 2);
    if list.len() == 0 {
        assert(list.push(m).drop_first() =~= list);
    } else {
        lemma_payload_push(list.drop_first(), m);
        assert(list.push(m).drop_first() =~= list.drop_first().push(m));
    }
}

/// Whether a call keeps to the limits, and its counts are right.
pub open spec fn call_ok(c: CallView, l: Limits) -> bool {
    &&& match c.stream {
        Some(s) => {
            &&& s.buffered_len == payload_len(s.messages)
            &&& s.buffered_len <= l.max_buffered_len
            &&& s.messages.len() <= l.max_buffered_msgs
        },
        None => true,
    }
    &&& match c.pending {
        Some(p) => pending_ok(p),
        None => true,
    }
    &&& c.queued ==> c.pending is Some
}

/// Whether the queue holds the calls that say so, each once.
pub open spec fn lined(v: CallsView) -> bool {
    &&& v.queue.no_duplicates()
    &&& forall|i: int| #![trigger v.queue[i]]
        0 <= i < v.queue.len() ==> v.has(v.queue[i]) && v.calls[v.queue[i]].queued
    &&& forall|id: u32| #[trigger] v.has(id) && v.calls[id].queued ==> v.queue.contains(id)
}

/// Whether a server keeps to its limits, and its counts are right: at most as many calls as
/// there is room for, each at most once in the queue, no more bytes kept than may be, no more slots
/// taken than there are, and of each kind exactly those that are counted. The limits are such that the machine can count
/// past them.
pub open spec fn accounts(v: CallsView, l: Limits) -> bool {
    &&& l.max_buffered_len < usize::MAX
    &&& l.max_conn_buffered_len < usize::MAX
    &&& v.calls.dom().finite()
    &&& v.calls.len() <= v.capacity
    &&& v.queue.len() <= v.queue_capacity
    &&& lined(v)
    &&& forall|id: u32| #[trigger] v.has(id) ==> call_ok(v.calls[id], l)
    &&& v.buffered == total(v.calls, Kind::Buffered)
    &&& v.pending_len == total(v.calls, Kind::Waiting)
    &&& v.buffered <= l.max_conn_buffered_len
    &&& v.pending_len <= v.pending_capacity
    &&& v.messages.held == total(v.calls, Kind::Messages)
    &&& v.replies.held == total(v.calls, Kind::Batches)
    &&& v.messages.held <= v.messages.limit
    &&& v.replies.held <= v.replies.limit
}

/// Whether the slots that are taken follow a call that became another.
pub open spec fn slots_follow(v: CallsView, w: CallsView, call: CallView, next: CallView) -> bool {
    &&& w.messages.held + weight(call, Kind::Messages) == v.messages.held + weight(
        next,
        Kind::Messages,
    )
    &&& w.replies.held + weight(call, Kind::Batches) == v.replies.held + weight(
        next,
        Kind::Batches,
    )
    &&& w.messages.held <= w.messages.limit
    &&& w.replies.held <= w.replies.limit
}

/// A call of which nothing is there.
pub open spec fn nothing() -> CallView {
    CallView { stream: None, pending: None, queued: false }
}

/// A call that changes without entering or leaving the queue.
proof fn lemma_changed(v: CallsView, w: CallsView, id: u32, call: CallView, l: Limits)
    requires
        accounts(v, l),
        v.has(id),
        call_ok(call, l),
        call.queued == v.calls[id].queued,
        w.calls == v.calls.insert(id, call),
        w.capacity == v.capacity,
        w.queue == v.queue,
        w.queue_capacity == v.queue_capacity,
        w.pending_capacity == v.pending_capacity,
        w.buffered + weight(v.calls[id], Kind::Buffered) == v.buffered + weight(call, Kind::Buffered),
        w.pending_len + weight(v.calls[id], Kind::Waiting) == v.pending_len + weight(call, Kind::Waiting),
        w.buffered <= l.max_conn_buffered_len,
        w.pending_len <= w.pending_capacity,
        slots_follow(v, w, v.calls[id], call),
    ensures
        accounts(w, l),
{
    lemma_total_with(v.calls, id, call, Kind::Buffered);
    lemma_total_with(v.calls, id, call, Kind::Waiting);
    lemma_total_with(v.calls, id, call, Kind::Messages);
    lemma_total_with(v.calls, id, call, Kind::Batches);
    assert(w.calls.dom() =~= v.calls.dom());
    assert forall|i: int| 0 <= i < w.queue.len() implies w.has(#[trigger] w.queue[i])
        && w.calls[w.queue[i]].queued by {
        assert(v.has(v.queue[i]));
    }
    assert forall|x: u32| #[trigger] w.has(x) implies call_ok(w.calls[x], l) && (w.calls[x].queued
        ==> w.queue.contains(x)) by {
        assert(v.has(x));
    }
}

/// The weight of a call is part of the whole.
proof fn lemma_part(v: CallsView, id: u32, l: Limits)
    requires
        accounts(v, l),
        v.has(id),
    ensures
        weight(v.calls[id], Kind::Buffered) <= v.buffered,
        weight(v.calls[id], Kind::Waiting) <= v.pending_len,
        weight(v.calls[id], Kind::Messages) <= v.messages.held,
        weight(v.calls[id], Kind::Batches) <= v.replies.held,
        call_ok(v.calls[id], l),
{
    lemma_total_without(v.calls, id, Kind::Buffered);
    lemma_total_without(v.calls, id, Kind::Waiting);
    lemma_total_without(v.calls, id, Kind::Messages);
    lemma_total_without(v.calls, id, Kind::Batches);
}

/// A call that leaves.
proof fn lemma_left(v: CallsView, w: CallsView, id: u32, l: Limits)
    requires
        accounts(v, l),
        v.has(id),
        w.calls == v.calls.remove(id),
        w.capacity == v.capacity,
        w.queue_capacity == v.queue_capacity,
        w.pending_capacity == v.pending_capacity,
        w.queue == (if v.calls[id].queued {
            collections::others(v.queue, id)
        } else {
            v.queue
        }),
        w.buffered + weight(v.calls[id], Kind::Buffered) == v.buffered,
        w.pending_len + weight(v.calls[id], Kind::Waiting) == v.pending_len,
        slots_follow(v, w, v.calls[id], nothing()),
    ensures
        accounts(w, l),
        w.calls.len() + 1 == v.calls.len(),
{
    lemma_total_without(v.calls, id, Kind::Buffered);
    lemma_total_without(v.calls, id, Kind::Waiting);
    lemma_total_without(v.calls, id, Kind::Messages);
    lemma_total_without(v.calls, id, Kind::Batches);
    assert(w.calls.dom() =~= v.calls.dom().remove(id));
    lemma_without_one(v.queue, id);
    assert(v.calls[id].queued == v.queue.contains(id)) by {
        if v.queue.contains(id) {
            let i = choose|i: int| 0 <= i < v.queue.len() && v.queue[i] == id;
            assert(v.calls[v.queue[i]].queued);
        }
    }
    assert forall|i: int| 0 <= i < w.queue.len() implies w.has(#[trigger] w.queue[i])
        && w.calls[w.queue[i]].queued by {
        assert(w.queue.contains(w.queue[i]));
        assert(v.queue.contains(w.queue[i]));
        let j = choose|j: int| 0 <= j < v.queue.len() && v.queue[j] == w.queue[i];
        assert(v.has(v.queue[j]));
    }
    assert forall|x: u32| #[trigger] w.has(x) implies call_ok(w.calls[x], l) && (w.calls[x].queued
        ==> w.queue.contains(x)) by {
        assert(v.has(x));
    }
}

/// Taking one number out of a list in which each stands once.
proof fn lemma_without_one(items: Seq<u32>, value: u32)
    requires
        items.no_duplicates(),
    ensures
        collections::others(items, value).no_duplicates(),
        collections::others(items, value).len() <= items.len(),
        forall|x: u32| #[trigger]
            collections::others(items, value).contains(x) <==> items.contains(x) && x != value,
    decreases items.len(),
{
    reveal(Seq::filter);
    let left = collections::others(items, value);
    if items.len() > 0 {
        let front = items.drop_last();
        lemma_without_one(front, value);
        let kept = collections::others(front, value);
        assert(!front.contains(items.last()));
        assert forall|x: u32| #[trigger] left.contains(x) implies items.contains(x) && x
            != value by {
            if kept.contains(x) {
                assert(front.contains(x));
                let i = choose|i: int| 0 <= i < front.len() && front[i] == x;
                assert(items[i] == x);
            } else {
                assert(x == items.last());
                assert(items[items.len() - 1] == x);
            }
        }
        assert forall|x: u32| items.contains(x) && x != value implies #[trigger] left.contains(
            x,
        ) by {
            let i = choose|i: int| 0 <= i < items.len() && items[i] == x;
            if i < front.len() {
                assert(front[i] == x);
                assert(kept.contains(x));
                let j = choose|j: int| 0 <= j < kept.len() && kept[j] == x;
                assert(left[j] == x);
            } else {
                assert(left[left.len() - 1] == x);
            }
        }
        if items.last() != value {
            assert(left =~= kept.push(items.last()));
            assert(!kept.contains(items.last()));
            assert forall|i: int, j: int| 0 <= i < left.len() && 0 <= j < left.len() && i
                != j implies left[i] != left[j] by {
                if i < kept.len() && j < kept.len() {
                } else if i < kept.len() {
                    assert(kept.contains(kept[i]));
                } else {
                    assert(kept.contains(kept[j]));
                }
            }
        }
    }
}

/// Taking a call away keeps the accounts.
pub proof fn lemma_removed_accounts(v: CallsView, id: u32, l: Limits)
    requires
        accounts(v, l),
    ensures
        accounts(model::removed(v, id), l),
        !model::removed(v, id).has(id),
        v.has(id) ==> model::removed(v, id).calls.len() + 1 == v.calls.len(),
{
    if v.has(id) {
        lemma_part(v, id, l);
        lemma_left(v, model::removed(v, id), id, l);
    }
}

proof fn lemma_emptied_accounts(v: CallsView, id: u32, l: Limits)
    requires
        accounts(v, l),
    ensures
        accounts(model::emptied(v, id), l),
{
    if v.has(id) && v.calls[id].stream is None && v.calls[id].pending is None {
        lemma_part(v, id, l);
        lemma_left(v, model::emptied(v, id), id, l);
    }
}

proof fn lemma_taken_accounts(v: CallsView, id: u32, l: Limits)
    requires
        accounts(v, l),
    ensures
        accounts(model::taken(v, id), l),
        model::taken(v, id).has(id) == v.has(id),
{
    if v.stream(id) is Some {
        lemma_part(v, id, l);
        let call = CallView { stream: None, ..v.calls[id] };
        lemma_changed(v, model::taken(v, id), id, call, l);
    }
}

proof fn lemma_inserted_accounts(v: CallsView, id: u32, s: StreamView, l: Limits)
    requires
        accounts(v, l),
        s.messages.len() == 0,
        s.buffered_len == 0,
    ensures
        accounts(model::inserted(v, id, s).0, l),
        model::inserted(v, id, s).1 ==> model::inserted(v, id, s).0.has(id),
{
    let (w, there) = model::inserted(v, id, s);
    if there {
        let call = CallView { stream: Some(s), pending: None, queued: false };
        lemma_total_with(v.calls, id, call, Kind::Buffered);
        lemma_total_with(v.calls, id, call, Kind::Waiting);
    lemma_total_with(v.calls, id, call, Kind::Messages);
    lemma_total_with(v.calls, id, call, Kind::Batches);
        assert(w.calls.dom() =~= v.calls.dom().insert(id));
        assert forall|i: int| 0 <= i < w.queue.len() implies w.has(#[trigger] w.queue[i])
            && w.calls[w.queue[i]].queued by {
            assert(v.has(v.queue[i]));
        }
        assert forall|x: u32| #[trigger] w.has(x) implies call_ok(w.calls[x], l) && (
        w.calls[x].queued ==> w.queue.contains(x)) by {
            if x != id {
                assert(v.has(x));
            }
        }
    }
}

proof fn lemma_kept_accounts(v: CallsView, id: u32, m: FrameView, l: Limits, place: bool)
    requires
        accounts(v, l),
    ensures
        model::message_kept(v, id, m, l, place) matches Some(w) ==> accounts(w, l),
{
    if v.stream(id) is Some {
        let s = v.stream(id)->0;
        match model::message_kept(v, id, m, l, place) {
            Some(w) => {
                lemma_part(v, id, l);
                lemma_payload_push(s.messages, m);
                assert(s.buffered_len + m.payload.len() <= usize::MAX);
                assert(v.buffered + m.payload.len() <= usize::MAX);
                lemma_changed(v, w, id, w.calls[id], l);
            },
            None => {},
        }
    }
}

proof fn lemma_framed_len(messages: Seq<Seq<u8>>, total: nat)
    ensures
        model::framed_len(messages, total) matches Ok(n) ==> n == total + wire(messages).len(),
    decreases messages.len(),
{
    if messages.len() > 0 {
        lemma_wire_first(messages);
        if messages[0].len() <= u32::MAX && total + messages[0].len() + frame::PREFIX_LEN
            <= usize::MAX {
            lemma_framed_len(
                messages.drop_first(),
                total + messages[0].len() + frame::PREFIX_LEN as nat,
            );
        }
    }
}

/// A call that enters the queue.
proof fn lemma_entered(v: CallsView, w: CallsView, id: u32, call: CallView, l: Limits)
    requires
        accounts(v, l),
        v.has(id),
        !v.calls[id].queued,
        v.queue.len() < v.queue_capacity,
        call_ok(call, l),
        call.queued,
        w.calls == v.calls.insert(id, call),
        w.capacity == v.capacity,
        w.queue == v.queue.push(id),
        w.queue_capacity == v.queue_capacity,
        w.pending_capacity == v.pending_capacity,
        w.buffered + weight(v.calls[id], Kind::Buffered) == v.buffered + weight(call, Kind::Buffered),
        w.pending_len + weight(v.calls[id], Kind::Waiting) == v.pending_len + weight(call, Kind::Waiting),
        w.buffered <= l.max_conn_buffered_len,
        w.pending_len <= w.pending_capacity,
        slots_follow(v, w, v.calls[id], call),
    ensures
        accounts(w, l),
{
    lemma_total_with(v.calls, id, call, Kind::Buffered);
    lemma_total_with(v.calls, id, call, Kind::Waiting);
    lemma_total_with(v.calls, id, call, Kind::Messages);
    lemma_total_with(v.calls, id, call, Kind::Batches);
    assert(w.calls.dom() =~= v.calls.dom());
    assert(!v.queue.contains(id)) by {
        if v.queue.contains(id) {
            let i = choose|i: int| 0 <= i < v.queue.len() && v.queue[i] == id;
            assert(v.calls[v.queue[i]].queued);
        }
    }
    assert forall|i: int| 0 <= i < w.queue.len() implies w.has(#[trigger] w.queue[i])
        && w.calls[w.queue[i]].queued by {
        if i < v.queue.len() {
            assert(v.has(v.queue[i]));
        }
    }
    assert forall|i: int, j: int| 0 <= i < w.queue.len() && 0 <= j < w.queue.len() && i
        != j implies w.queue[i] != w.queue[j] by {
        if i == v.queue.len() {
            assert(v.queue.contains(v.queue[j]));
        } else if j == v.queue.len() {
            assert(v.queue.contains(v.queue[i]));
        }
    }
    assert forall|x: u32| #[trigger] w.has(x) implies call_ok(w.calls[x], l) && (w.calls[x].queued
        ==> w.queue.contains(x)) by {
        assert(v.has(x));
        if x == id {
            assert(w.queue[v.queue.len() as int] == id);
        } else if v.calls[x].queued {
            let i = choose|i: int| 0 <= i < v.queue.len() && v.queue[i] == x;
            assert(w.queue[i] == x);
        }
    }
}

/// The first call of the queue leaves it.
proof fn lemma_popped(v: CallsView, w: CallsView, call: CallView, l: Limits)
    requires
        accounts(v, l),
        v.queue.len() > 0,
        call_ok(call, l),
        !call.queued,
        w.calls == v.calls.insert(v.queue[0], call),
        w.capacity == v.capacity,
        w.queue == v.queue.drop_first(),
        w.queue_capacity == v.queue_capacity,
        w.pending_capacity == v.pending_capacity,
        w.buffered + weight(v.calls[v.queue[0]], Kind::Buffered) == v.buffered + weight(call, Kind::Buffered),
        w.pending_len + weight(v.calls[v.queue[0]], Kind::Waiting) == v.pending_len + weight(call, Kind::Waiting),
        w.buffered <= l.max_conn_buffered_len,
        w.pending_len <= w.pending_capacity,
        slots_follow(v, w, v.calls[v.queue[0]], call),
    ensures
        accounts(w, l),
{
    let id = v.queue[0];
    assert(v.has(id));
    lemma_total_with(v.calls, id, call, Kind::Buffered);
    lemma_total_with(v.calls, id, call, Kind::Waiting);
    lemma_total_with(v.calls, id, call, Kind::Messages);
    lemma_total_with(v.calls, id, call, Kind::Batches);
    assert(w.calls.dom() =~= v.calls.dom());
    assert forall|i: int| 0 <= i < w.queue.len() implies w.has(#[trigger] w.queue[i])
        && w.calls[w.queue[i]].queued by {
        assert(w.queue[i] == v.queue[i + 1]);
        assert(v.queue[i + 1] != v.queue[0]);
    }
    assert forall|x: u32| #[trigger] w.has(x) implies call_ok(w.calls[x], l) && (w.calls[x].queued
        ==> w.queue.contains(x)) by {
        assert(v.has(x));
        if x != id && v.calls[x].queued {
            let i = choose|i: int| 0 <= i < v.queue.len() && v.queue[i] == x;
            assert(w.queue[i - 1] == x);
        }
    }
}

proof fn lemma_extended(
    call: CallView,
    fields: Seq<FieldView>,
    messages: Seq<Seq<u8>>,
    trailers: Option<Seq<FieldView>>,
    added: nat,
    l: Limits,
)
    requires
        call_ok(call, l),
        added == wire(messages).len(),
        weight(call, Kind::Waiting) + added <= usize::MAX,
    ensures
        pending_ok(model::extended(call.pending, fields, messages, trailers, added)),
        model::extended(call.pending, fields, messages, trailers, added).remaining == weight(
            call,
            Kind::Waiting,
        ) + added,
        call.pending matches Some(p) ==> waiting(
            model::extended(call.pending, fields, messages, trailers, added),
        ) == waiting(p) + wire(messages),
{
    match call.pending {
        None => {
            lemma_with_batch(Seq::empty(), 0, messages.len());
            assert(wire(messages).skip(0) =~= wire(messages));
        },
        Some(p) => {
            lemma_with_batch(p.batches, p.messages.len() as int, messages.len());
            lemma_wire_after(p.messages, messages);
            if p.messages.len() > 0 {
                lemma_wire_first(p.messages);
            }
            assert(wire(p.messages + messages).skip(p.frame_pos as int) =~= waiting(p) + wire(
                messages,
            ));
        },
    }
}

proof fn lemma_enqueued_accounts(v: CallsView, id: u32, r: ReplyView, place: bool, l: Limits)
    requires
        accounts(v, l),
    ensures
        accounts(model::enqueued(v, id, r, place).0, l),
{
    lemma_framed_len(r.messages, 0);
    let (w, out) = model::enqueued(v, id, r, place);
    if w != v {
        lemma_part(v, id, l);
        let fields = headers::response_fields(r.metadata)->Ok_0;
        let trailers = model::end_fields(r)->Ok_0;
        let added = model::framed_len(r.messages, 0)->Ok_0;
        let call = v.calls[id];
        lemma_extended(call, fields, r.messages, trailers, added, l);
        let next = CallView {
            pending: Some(model::extended(call.pending, fields, r.messages, trailers, added)),
            queued: true,
            ..call
        };
        if call.queued {
            lemma_changed(v, w, id, next, l);
        } else {
            lemma_entered(v, w, id, next, l);
        }
    }
}

#[verifier::spinoff_prover]
proof fn lemma_turn_accounts(v: CallsView, c: ConnView, l: Limits)
    requires
        accounts(v, l),
        v.queue.len() > 0,
    ensures
        accounts(model::turn(v, c).0, l),
{
    reveal(model::turn);
    let id = v.queue[0];
    let call = CallView { queued: false, ..v.calls[id] };
    assert(v.has(id) && v.calls[id].queued);
    lemma_part(v, id, l);
    let p = call.pending->0;
    let (next, left, len, out) = model::response_driven(c, id, p, v.pending_len);
    let acts = law_answers_are_sent_in_order(c, id, p, v.pending_len);
    let popped = CallsView { queue: v.queue.drop_first(), ..v };
    let gone = CallView { pending: None, ..call };
    let open = CallsView {
        pending_len: len,
        replies: v.replies.fewer((p.batches.len() - left.batches.len()) as nat),
        ..popped.with(id, gone)
    };
    let idle = CallView { pending: Some(left), ..call };
    let over = CallsView { replies: open.replies.fewer(left.batches.len()), ..open };
    let shut = CallsView { pending_len: model::less(len, left.remaining), ..over };
    match out {
        Driven::Idle => {
            assert(open.with(id, idle).calls =~= v.calls.insert(id, idle));
            lemma_popped(v, open.with(id, idle), idle, l);
        },
        Driven::Complete => {
            assert(left.remaining == 0);
            lemma_popped(v, over, gone, l);
            lemma_emptied_accounts(over, id, l);
        },
        Driven::Failed => {
            lemma_popped(v, shut, gone, l);
            lemma_emptied_accounts(shut, id, l);
        },
        Driven::Blocked => {
            let again = CallView { pending: Some(left), queued: true, ..call };
            let mid = open.with(id, idle);
            assert(mid.calls =~= v.calls.insert(id, idle));
            lemma_popped(v, mid, idle, l);
            let w = CallsView { queue: open.queue.push(id), ..open.with(id, again) };
            assert(w.calls =~= mid.calls.insert(id, again));
            if open.queue.len() < open.queue_capacity {
                lemma_entered(mid, w, id, again, l);
            }
        },
    }
}

proof fn lemma_flushed_accounts(v: CallsView, c: ConnView, n: nat, l: Limits)
    requires
        accounts(v, l),
    ensures
        accounts(model::flushed(v, c, n).0, l),
    decreases n,
{
    if n > 0 && v.queue.len() > 0 {
        lemma_turn_accounts(v, c, l);
        let (next, conn) = model::turn(v, c);
        lemma_flushed_accounts(next, conn, (n - 1) as nat, l);
    }
}

proof fn lemma_pumped_accounts(v: ServerView, l: Limits)
    requires
        accounts(v.calls, l),
    ensures
        accounts(model::pumped(v).calls, l),
{
    lemma_flushed_accounts(v.calls, v.conn, v.calls.queue.len(), l);
}

proof fn lemma_error_accounts(v: ServerView, id: u32, s: StatusView, l: Limits)
    requires
        accounts(v.calls, l),
    ensures
        accounts(model::error_sent(v, id, s).calls, l),
{
    reveal(model::error_sent);
    lemma_removed_accounts(v.calls, id, l);
}

proof fn lemma_replied_accounts(v: ServerView, id: u32, r: ReplyView, place: bool, l: Limits)
    requires
        accounts(v.calls, l),
    ensures
        accounts(model::replied(v, id, r, place).calls, l),
{
    lemma_enqueued_accounts(v.calls, id, r, place, l);
    match model::enqueued(v.calls, id, r, place) {
        (calls, Ok(_)) => {},
        (calls, Err(failure)) => {
            lemma_error_accounts(ServerView { calls, ..v }, id, failure, l);
        },
    }
}

proof fn lemma_head_accounts(v: ServerView, id: u32, fields: Seq<FieldView>, l: Limits, said: Said)
    requires
        accounts(v.calls, l),
    ensures
        accounts(model::head_served(v, id, fields, l, said).calls, l),
{
    match headers::request_head(fields) {
        Err(failure) => lemma_error_accounts(v, id, failure, l),
        Ok(head) => {
            let heard = ServerView { routes: said.routes, ..v };
            let s = model::new_stream(head, said.mode, l.max_message_len);
            lemma_inserted_accounts(v.calls, id, s, l);
            match model::inserted(heard.calls, id, s) {
                (calls, false) => lemma_error_accounts(
                    ServerView { calls, ..heard },
                    id,
                    model::exhausted("too many in-flight streams"),
                    l,
                ),
                (calls, true) => lemma_replied_accounts(
                    ServerView { calls, ..heard },
                    id,
                    said.reply,
                    said.place,
                    l,
                ),
            }
        },
    }
}

proof fn lemma_trailers_accounts(v: ServerView, id: u32, fields: Seq<FieldView>, l: Limits)
    requires
        accounts(v.calls, l),
    ensures
        accounts(model::trailers_served(v, id, fields).calls, l),
{
    match headers::request_trailers(fields) {
        Err(failure) => lemma_error_accounts(v, id, failure, l),
        Ok(trailers) => {
            if v.calls.stream(id) is Some {
                let s = v.calls.stream(id)->0;
                lemma_part(v.calls, id, l);
                let call = CallView {
                    stream: Some(StreamView { trailers, ..s }),
                    ..v.calls.calls[id]
                };
                lemma_changed(v.calls, v.calls.with(id, call), id, call, l);
            }
        },
    }
}

proof fn lemma_message_accounts(v: ServerView, id: u32, m: FrameView, l: Limits, said: Said)
    requires
        accounts(v.calls, l),
    ensures
        accounts(model::message_served(v, id, m, l, said).0.calls, l),
{
    if v.calls.stream(id) is Some {
        lemma_error_accounts(v, id, crate::grpc::server::limits::compressed(), l);
        lemma_error_accounts(v, id, model::exhausted("stream buffer limit exceeded"), l);
        lemma_kept_accounts(v.calls, id, m, l, said.place);
        let heard = ServerView { routes: said.routes, ..v };
        lemma_replied_accounts(heard, id, said.reply, said.place, l);
        lemma_pumped_accounts(model::replied(heard, id, said.reply, said.place), l);
    }
}

proof fn lemma_data_accounts(
    v: ServerView,
    id: u32,
    data: Seq<u8>,
    l: Limits,
    frag: bool,
    said: Seq<Said>,
)
    requires
        accounts(v.calls, l),
    ensures
        accounts(model::data_served(v, id, data, l, frag, said).calls, l),
    decreases data.len(),
{
    if data.len() == 0 {
        lemma_pumped_accounts(v, l);
    } else if v.calls.stream(id) is None {
        lemma_error_accounts(v, id, model::internal("DATA before gRPC headers"), l);
    } else {
        let s = v.calls.stream(id)->0;
        let (d, rest, out) = frame::deframed(s.deframer, data, v.fragments.gives(frag));
        let call = CallView { stream: Some(StreamView { deframer: d, ..s }), ..v.calls.calls[id] };
        let read = ServerView {
            calls: v.calls.with(id, call),
            fragments: frame::asked_for(v.fragments, s.deframer, data, frag),
            ..v
        };
        lemma_part(v.calls, id, l);
        lemma_changed(v.calls, read.calls, id, call, l);
        match out {
            Err(failure) => lemma_error_accounts(
                read,
                id,
                crate::grpc::status::frame_failure(failure),
                l,
            ),
            Ok(None) => lemma_pumped_accounts(read, l),
            Ok(Some(m)) => {
                lemma_message_accounts(read, id, m, l, said[0]);
                let (next, on) = model::message_served(read, id, m, l, said[0]);
                if on && rest.len() < data.len() {
                    lemma_data_accounts(next, id, rest, l, frag, said.drop_first());
                }
            },
        }
    }
}

proof fn lemma_end_accounts(v: ServerView, id: u32, end: Ended, l: Limits)
    requires
        accounts(v.calls, l),
    ensures
        accounts(model::end_served(v, id, end).calls, l),
{
    if v.calls.stream(id) is Some {
        lemma_taken_accounts(v.calls, id, l);
        let open = ServerView { calls: model::taken(v.calls, id), ..v };
        let heard = ServerView { routes: end.said.routes, ..open };
        let last = model::ending(end.said.reply);
        lemma_replied_accounts(heard, id, last, end.said.place, l);
        lemma_pumped_accounts(model::replied(heard, id, last, end.said.place), l);
        match end.outcome {
            Ok(r) => {
                lemma_replied_accounts(open, id, model::whole(r), end.said.place, l);
                lemma_pumped_accounts(
                    model::replied(open, id, model::whole(r), end.said.place),
                    l,
                );
            },
            Err(failure) => lemma_error_accounts(open, id, failure, l),
        }
    }
}

/// Whatever comes and whatever is answered, a server keeps to its limits, and its counts stay
/// right.
pub proof fn law_limits_are_kept(v: ServerView, event: EventView, l: Limits, s: Script)
    requires
        accounts(v.calls, l),
    ensures
        accounts(model::event_served(v, event, l, s).calls, l),
        accounts(model::pumped(v).calls, l),
{
    reveal(model::event_served);
    lemma_pumped_accounts(v, l);
    match event {
        EventView::Headers { stream, fields, end_stream, trailing } => {
            lemma_trailers_accounts(v, stream, fields, l);
            lemma_head_accounts(v, stream, fields, l, s.start);
            lemma_end_accounts(model::trailers_served(v, stream, fields), stream, s.end, l);
            lemma_end_accounts(
                model::head_served(v, stream, fields, l, s.start),
                stream,
                s.end,
                l,
            );
        },
        EventView::Data { stream, data, end_stream } => {
            lemma_data_accounts(v, stream, data, l, s.frag, s.messages);
            lemma_end_accounts(
                model::data_served(v, stream, data, l, s.frag, s.messages),
                stream,
                s.end,
                l,
            );
        },
        EventView::StreamReset { stream, error } => lemma_removed_accounts(v.calls, stream, l),
        _ => {},
    }
}

/// A call that is there always finds room in the queue: the queue holds each call at most once,
/// and has room for all that there is room for.
pub proof fn law_the_queue_never_fills(v: CallsView, l: Limits, id: u32)
    requires
        accounts(v, l),
        v.queue_capacity == v.capacity,
        v.has(id),
        !v.calls[id].queued,
    ensures
        v.queue.len() < v.queue_capacity,
{
    let ids = v.queue.to_set();
    v.queue.unique_seq_to_set();
    assert(!v.queue.contains(id)) by {
        if v.queue.contains(id) {
            let i = choose|i: int| 0 <= i < v.queue.len() && v.queue[i] == id;
            assert(v.calls[v.queue[i]].queued);
        }
    }
    assert(ids.insert(id).subset_of(v.calls.dom())) by {
        assert forall|x: u32| ids.insert(id).contains(x) implies v.calls.dom().contains(x) by {
            if x != id {
                let i = choose|i: int| 0 <= i < v.queue.len() && v.queue[i] == x;
                assert(v.has(v.queue[i]));
            }
        }
    }
    vstd::set_lib::lemma_len_subset(ids.insert(id), v.calls.dom());
}

/// Whether of every answer that is left, what was sent and what waits make up what waited.
pub open spec fn conserved(v: CallsView, c: ConnView, acts: Seq<Act>, w: CallsView) -> bool {
    forall|id: u32| #[trigger]
        w.has(id) && w.calls[id].pending is Some ==> v.has(id) && v.calls[id].pending is Some
            && sending::body_sent(c, acts, id) + waiting(w.calls[id].pending->0) == waiting(
            v.calls[id].pending->0,
        )
}

proof fn lemma_nothing_sent(v: CallsView, c: ConnView)
    ensures
        conserved(v, c, Seq::empty(), v),
{
    assert forall|id: u32| #[trigger]
        v.has(id) && v.calls[id].pending is Some implies sending::body_sent(c, Seq::empty(), id)
        + waiting(v.calls[id].pending->0) == waiting(v.calls[id].pending->0) by {
        assert(Seq::<u8>::empty() + waiting(v.calls[id].pending->0) =~= waiting(
            v.calls[id].pending->0,
        ));
    }
}

proof fn lemma_turn_order(v: CallsView, c: ConnView, l: Limits) -> (acts: Seq<Act>)
    requires
        accounts(v, l),
        v.queue.len() > 0,
    ensures
        sending::performed(c, acts) == model::turn(v, c).1,
        conserved(v, c, acts, model::turn(v, c).0),
{
    reveal(model::turn);
    let id = v.queue[0];
    assert(v.has(id) && v.calls[id].queued);
    lemma_part(v, id, l);
    let p = v.calls[id].pending->0;
    let acts = law_answers_are_sent_in_order(c, id, p, v.pending_len);
    let w = model::turn(v, c).0;
    assert forall|x: u32| #[trigger] w.has(x) && w.calls[x].pending is Some implies v.has(x)
        && v.calls[x].pending is Some && sending::body_sent(c, acts, x) + waiting(
        w.calls[x].pending->0,
    ) == waiting(v.calls[x].pending->0) by {
        if x != id {
            assert(v.has(x) && w.calls[x] == v.calls[x]);
            assert(Seq::<u8>::empty() + waiting(v.calls[x].pending->0) =~= waiting(
                v.calls[x].pending->0,
            ));
        }
    }
    acts
}

/// Going round the answers loses nothing of one that is left, repeats nothing and keeps the
/// order of its bytes.
pub proof fn law_flushing_keeps_the_order(v: CallsView, c: ConnView, n: nat, l: Limits) -> (acts:
    Seq<Act>)
    requires
        accounts(v, l),
    ensures
        sending::performed(c, acts) == model::flushed(v, c, n).1,
        conserved(v, c, acts, model::flushed(v, c, n).0),
    decreases n,
{
    if n == 0 || v.queue.len() == 0 {
        lemma_nothing_sent(v, c);
        Seq::empty()
    } else {
        let acts = lemma_turn_order(v, c, l);
        lemma_turn_accounts(v, c, l);
        let (mid, next) = model::turn(v, c);
        let more = law_flushing_keeps_the_order(mid, next, (n - 1) as nat, l);
        sending::lemma_after(c, acts, more);
        let w = model::flushed(v, c, n).0;
        assert forall|x: u32| #[trigger] w.has(x) && w.calls[x].pending is Some implies v.has(x)
            && v.calls[x].pending is Some && sending::body_sent(c, acts + more, x) + waiting(
            w.calls[x].pending->0,
        ) == waiting(v.calls[x].pending->0) by {
            assert(mid.has(x) && mid.calls[x].pending is Some);
            let a = sending::body_sent(c, acts, x);
            let b = sending::body_sent(next, more, x);
            let t = waiting(w.calls[x].pending->0);
            assert((a + b) + t =~= a + (b + t));
        }
        acts + more
    }
}

proof fn lemma_turn_streams(v: CallsView, c: ConnView, x: u32)
    requires
        v.queue.len() > 0,
    ensures
        model::turn(v, c).0.stream(x) == v.stream(x),
{
    reveal(model::turn);
}

proof fn lemma_flushed_streams(v: CallsView, c: ConnView, n: nat, x: u32)
    ensures
        model::flushed(v, c, n).0.stream(x) == v.stream(x),
    decreases n,
{
    if n > 0 && v.queue.len() > 0 {
        lemma_turn_streams(v, c, x);
        let (next, conn) = model::turn(v, c);
        lemma_flushed_streams(next, conn, (n - 1) as nat, x);
    }
}

proof fn lemma_pumped_streams(v: ServerView, x: u32)
    ensures
        model::pumped(v).calls.stream(x) == v.calls.stream(x),
{
    lemma_flushed_streams(v.calls, v.conn, v.calls.queue.len(), x);
}

proof fn lemma_error_streams(v: ServerView, id: u32, s: StatusView, x: u32)
    requires
        x != id,
    ensures
        model::error_sent(v, id, s).calls.stream(x) == v.calls.stream(x),
{
    reveal(model::error_sent);
}

proof fn lemma_replied_streams(v: ServerView, id: u32, r: ReplyView, place: bool, x: u32)
    requires
        x != id,
    ensures
        model::replied(v, id, r, place).calls.stream(x) == v.calls.stream(x),
{
    match model::enqueued(v.calls, id, r, place) {
        (calls, Ok(_)) => {},
        (calls, Err(failure)) => {
            lemma_error_streams(ServerView { calls, ..v }, id, failure, x);
        },
    }
}

proof fn lemma_message_streams(v: ServerView, id: u32, m: FrameView, l: Limits, said: Said, x: u32)
    requires
        x != id,
    ensures
        model::message_served(v, id, m, l, said).0.calls.stream(x) == v.calls.stream(x),
{
    lemma_error_streams(v, id, crate::grpc::server::limits::compressed(), x);
    lemma_error_streams(v, id, model::exhausted("stream buffer limit exceeded"), x);
    let heard = ServerView { routes: said.routes, ..v };
    lemma_replied_streams(heard, id, said.reply, said.place, x);
    lemma_pumped_streams(model::replied(heard, id, said.reply, said.place), x);
}

proof fn lemma_data_streams(
    v: ServerView,
    id: u32,
    data: Seq<u8>,
    l: Limits,
    frag: bool,
    said: Seq<Said>,
    x: u32,
)
    requires
        x != id,
    ensures
        model::data_served(v, id, data, l, frag, said).calls.stream(x) == v.calls.stream(x),
    decreases data.len(),
{
    if data.len() == 0 {
        lemma_pumped_streams(v, x);
    } else if v.calls.stream(id) is None {
        lemma_error_streams(v, id, model::internal("DATA before gRPC headers"), x);
    } else {
        let s = v.calls.stream(id)->0;
        let (d, rest, out) = frame::deframed(s.deframer, data, v.fragments.gives(frag));
        let call = CallView { stream: Some(StreamView { deframer: d, ..s }), ..v.calls.calls[id] };
        let read = ServerView {
            calls: v.calls.with(id, call),
            fragments: frame::asked_for(v.fragments, s.deframer, data, frag),
            ..v
        };
        match out {
            Err(failure) => lemma_error_streams(
                read,
                id,
                crate::grpc::status::frame_failure(failure),
                x,
            ),
            Ok(None) => lemma_pumped_streams(read, x),
            Ok(Some(m)) => {
                lemma_message_streams(read, id, m, l, said[0], x);
                let (next, on) = model::message_served(read, id, m, l, said[0]);
                if on && rest.len() < data.len() {
                    lemma_data_streams(next, id, rest, l, frag, said.drop_first(), x);
                }
            },
        }
    }
}

proof fn lemma_end_streams(v: ServerView, id: u32, end: Ended, x: u32)
    requires
        x != id,
    ensures
        model::end_served(v, id, end).calls.stream(x) == v.calls.stream(x),
{
    let open = ServerView { calls: model::taken(v.calls, id), ..v };
    let heard = ServerView { routes: end.said.routes, ..open };
    let last = model::ending(end.said.reply);
    lemma_replied_streams(heard, id, last, end.said.place, x);
    lemma_pumped_streams(model::replied(heard, id, last, end.said.place), x);
    match end.outcome {
        Ok(r) => {
            lemma_replied_streams(open, id, model::whole(r), end.said.place, x);
            lemma_pumped_streams(model::replied(open, id, model::whole(r), end.said.place), x);
        },
        Err(failure) => lemma_error_streams(open, id, failure, x),
    }
}

/// What comes for one request leaves every other as it was.
pub proof fn law_requests_do_not_meddle(
    v: ServerView,
    event: EventView,
    l: Limits,
    s: Script,
    other: u32,
)
    requires
        crate::h2::event::stream_of(event) != Some(other),
    ensures
        model::event_served(v, event, l, s).calls.stream(other) == v.calls.stream(other),
{
    reveal(model::event_served);
    match event {
        EventView::Headers { stream, fields, end_stream, trailing } => {
            let next = if trailing {
                if let Err(failure) = headers::request_trailers(fields) {
                    lemma_error_streams(v, stream, failure, other);
                }
                model::trailers_served(v, stream, fields)
            } else {
                match headers::request_head(fields) {
                    Err(failure) => lemma_error_streams(v, stream, failure, other),
                    Ok(head) => {
                        let heard = ServerView { routes: s.start.routes, ..v };
                        let begun = model::new_stream(head, s.start.mode, l.max_message_len);
                        let calls = model::inserted(heard.calls, stream, begun).0;
                        let there = ServerView { calls, ..heard };
                        lemma_error_streams(
                            there,
                            stream,
                            model::exhausted("too many in-flight streams"),
                            other,
                        );
                        lemma_replied_streams(there, stream, s.start.reply, s.start.place, other);
                    },
                }
                model::head_served(v, stream, fields, l, s.start)
            };
            lemma_end_streams(next, stream, s.end, other);
        },
        EventView::Data { stream, data, end_stream } => {
            lemma_data_streams(v, stream, data, l, s.frag, s.messages, other);
            lemma_end_streams(
                model::data_served(v, stream, data, l, s.frag, s.messages),
                stream,
                s.end,
                other,
            );
        },
        _ => {},
    }
}

/// A failure is told: where the connection still takes an answer on the stream, the peer gets
/// an answer with no messages and an end that carries the status, both of which it reads as
/// they were meant; the call is gone, and no other call is touched.
pub proof fn law_failures_are_told(v: ServerView, id: u32, s: StatusView)
    requires
        conn::model::response_sent(v.conn, id, headers::response_head_fields(), false).1 is Ok,
    ensures
        model::error_sent(v, id, s).conn == sending::performed(
            v.conn,
            seq![
                Act::Fields {
                    stream: id,
                    list: headers::response_head_fields(),
                    end_stream: false,
                },
                Act::Fields {
                    stream: id,
                    list: headers::trailer_head_fields(s),
                    end_stream: true,
                },
            ],
        ),
        headers::response_head(headers::response_head_fields()) == Ok::<
            Seq<FieldView>,
            StatusView,
        >(Seq::empty()),
        headers::response_trailers(headers::trailer_head_fields(s)) == Ok::<
            (StatusView, Seq<FieldView>),
            StatusView,
        >((s, Seq::empty())),
        !model::error_sent(v, id, s).calls.has(id),
        forall|x: u32|
            x != id ==> #[trigger] model::error_sent(v, id, s).calls.has(x) == v.calls.has(x)
                && model::error_sent(v, id, s).calls.calls[x] == v.calls.calls[x],
{
    reveal(model::error_sent);
    let none = Seq::<FieldView>::empty();
    let head = headers::response_head_fields();
    let tail = headers::trailer_head_fields(s);
    assert(head + none =~= head);
    assert(tail + none =~= tail);
    laws::law_responses_are_read_back(none);
    laws::law_endings_are_read_back(s, none);
    let a = Act::Fields { stream: id, list: head, end_stream: false };
    let b = Act::Fields { stream: id, list: tail, end_stream: true };
    assert(seq![a, b] =~= seq![a] + seq![b]);
    assert(seq![b] =~= seq![b] + Seq::empty());
    sending::lemma_first(v.conn, a, seq![b]);
    sending::lemma_first(sending::acted(v.conn, a), b, Seq::empty());
}

/// A request that is not one is refused with what is wrong with it, whether or not it has
/// ended.
pub proof fn law_bad_requests_are_refused(
    v: ServerView,
    id: u32,
    fields: Seq<FieldView>,
    end_stream: bool,
    l: Limits,
    s: Script,
)
    requires
        headers::request_head(fields) is Err,
    ensures
        model::event_served(
            v,
            EventView::Headers { stream: id, fields, end_stream, trailing: false },
            l,
            s,
        ) == model::error_sent(v, id, headers::request_head(fields)->Err_0),
{
    reveal(model::event_served);
    reveal(model::error_sent);
}

/// A request for which there is no room is refused, and those that are under way stay.
pub proof fn law_requests_over_the_limit_are_refused(
    v: ServerView,
    id: u32,
    fields: Seq<FieldView>,
    end_stream: bool,
    l: Limits,
    s: Script,
)
    requires
        headers::request_head(fields) is Ok,
        v.calls.calls.len() >= v.calls.capacity,
    ensures
        model::event_served(
            v,
            EventView::Headers { stream: id, fields, end_stream, trailing: false },
            l,
            s,
        ) == model::error_sent(
            ServerView { routes: s.start.routes, ..v },
            id,
            model::exhausted("too many in-flight streams"),
        ),
{
    reveal(model::event_served);
    reveal(model::error_sent);
}

/// A server that has kept more messages of a request.
pub open spec fn with_messages(v: ServerView, id: u32, list: Seq<FrameView>) -> ServerView {
    let s = v.calls.stream(id)->0;
    ServerView {
        calls: CallsView {
            buffered: (v.calls.buffered + payload_len(list)) as usize,
            messages: Room { held: v.calls.messages.held + list.len(), ..v.calls.messages },
            ..v.calls.with(
                id,
                CallView {
                    stream: Some(
                        StreamView {
                            messages: s.messages + list,
                            buffered_len: (s.buffered_len + payload_len(list)) as usize,
                            ..s
                        },
                    ),
                    ..v.calls.calls[id]
                },
            )
        },
        ..v
    }
}

/// The messages of a request that waits until it is complete are kept as they were sent, in
/// order.
pub proof fn law_messages_are_kept(
    v: ServerView,
    id: u32,
    max: usize,
    list: Seq<FrameView>,
    l: Limits,
    frag: bool,
    said: Seq<Said>,
)
    requires
        v.calls.stream(id) is Some,
        v.calls.stream(id)->0.mode == StreamMode::Buffered,
        v.calls.stream(id)->0.deframer == frame::fresh(max),
        forall|i: int|
            0 <= i < list.len() ==> (#[trigger] list[i]).payload.len() <= max
                && list[i].payload.len() <= u32::MAX,
        list.len() <= said.len(),
        v.calls.messages.held + list.len() <= v.calls.messages.limit,
        v.calls.messages.spent < u32::MAX - 1,
        v.calls.stream(id)->0.messages.len() + list.len() <= l.max_buffered_msgs,
        v.calls.stream(id)->0.buffered_len + payload_len(list) <= l.max_buffered_len,
        v.calls.buffered + payload_len(list) <= l.max_conn_buffered_len,
    ensures
        model::data_served(v, id, frame::all_framed(list), l, frag, said) == model::pumped(
            with_messages(v, id, list),
        ),
    decreases list.len(),
{
    let s = v.calls.stream(id)->0;
    let call = v.calls.calls[id];
    if list.len() == 0 {
        assert(s.messages + list =~= s.messages);
        assert(v.calls.calls.insert(id, call) =~= v.calls.calls);
        assert(with_messages(v, id, list) == v);
    } else {
        let m = list[0];
        let rest = list.drop_first();
        let more = frame::all_framed(rest);
        frame::lemma_one_message(max, m, more);
        frame::lemma_places(frame::fresh(max), frame::framed(m) + more);
        assert forall|i: int| 0 <= i < rest.len() implies (#[trigger] rest[i]).payload.len() <= max
            && rest[i].payload.len() <= u32::MAX by {
            assert(rest[i] == list[i + 1]);
        }
        let (next, on) = model::message_served(v, id, m, l, said[0]);
        assert(v.calls.calls.insert(id, call) =~= v.calls.calls);
        assert(on);
        law_messages_are_kept(next, id, max, rest, l, frag, said.drop_first());
        assert(s.messages.push(m) + rest =~= s.messages + list);
        assert(with_messages(next, id, rest).calls.calls =~= with_messages(v, id, list).calls.calls);
    }
}

/// A message of a request that waits takes one of the slots that were set up: with one left it is
/// kept behind those that were kept before, and with none left it is not.
pub proof fn law_messages_use_their_slots(
    v: CallsView,
    id: u32,
    m: FrameView,
    l: Limits,
    place: bool,
)
    requires
        v.stream(id) is Some,
        v.stream(id)->0.buffered_len + m.payload.len() <= l.max_buffered_len,
        v.stream(id)->0.messages.len() < l.max_buffered_msgs,
        v.buffered + m.payload.len() <= l.max_conn_buffered_len,
    ensures
        v.messages.held >= v.messages.limit ==> model::message_kept(v, id, m, l, place) is None,
        v.messages.held < v.messages.limit && v.messages.spent < u32::MAX - 1 ==> {
            &&& model::message_kept(v, id, m, l, place) matches Some(w)
            &&& w.messages == v.messages.more()
            &&& w.stream(id)->0.messages == v.stream(id)->0.messages.push(m)
        },
{
}

/// The messages of a piece of an answer take one of the slots that were set up: with one left they
/// are kept behind those that wait, and with none left the piece is refused and nothing changes.
pub proof fn law_answers_use_their_slots(
    v: CallsView,
    id: u32,
    fields: Seq<FieldView>,
    messages: Seq<Seq<u8>>,
    trailers: Option<Seq<FieldView>>,
    added: nat,
    place: bool,
)
    requires
        v.has(id),
        v.calls[id].queued || v.queue.len() < v.queue_capacity,
        messages.len() > 0,
    ensures
        v.replies.held >= v.replies.limit ==> model::kept(
            v,
            id,
            fields,
            messages,
            trailers,
            added,
            place,
        ) == (
            v,
            Err::<(), StatusView>(model::exhausted("pending response messages are full")),
        ),
        v.replies.held < v.replies.limit && v.replies.spent < u32::MAX - 1 ==> {
            let (w, r) = model::kept(v, id, fields, messages, trailers, added, place);
            &&& r is Ok
            &&& w.replies == v.replies.more()
            &&& w.calls[id].pending == Some(
                model::extended(v.calls[id].pending, fields, messages, trailers, added),
            )
        },
{
}

} // verus!
