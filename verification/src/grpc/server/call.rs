//! The calls of a server: what came in of each, and what is left to send.

use super::model;
use super::limits::Limits;
use super::model::{CallView, CallsView, Driven, PendingView, StreamView};
use super::reply;
use super::reply::{StreamMode, StreamReply};
use crate::chains;
use crate::chains::{Chain, Chains};
use crate::collections::{Permit, Queue, Room, Table};
use crate::grpc::frame;
use crate::grpc::frame::{DataChunk, Deframer, FrameError, FrameView, MessageFrame};
use crate::grpc::headers::{HeaderBlock, RequestHead};
use crate::grpc::metadata::Metadata;
use crate::grpc::status::{Code, Status, StatusView};
use crate::h2::conn::model as conn_model;
use crate::h2::conn::Conn;
use crate::h2::hpack::FieldView;
use crate::h2::role::ServerRole;
use crate::h2::stream::StreamId;
use vstd::prelude::*;

verus! {

/// The messages of several answers, one after the other.
pub open spec fn all_messages(batches: Seq<Vec<Vec<u8>>>) -> Seq<Seq<u8>>
    decreases batches.len(),
{
    if batches.len() == 0 {
        Seq::empty()
    } else {
        reply::payloads(batches[0]@) + all_messages(batches.drop_first())
    }
}

proof fn lemma_one_batch_more(batches: Seq<Vec<Vec<u8>>>, more: Vec<Vec<u8>>)
    ensures
        all_messages(batches.push(more)) == all_messages(batches) + reply::payloads(more@),
    decreases batches.len(),
{
    let all = batches.push(more);
    if batches.len() == 0 {
        assert(all.drop_first() =~= Seq::<Vec<Vec<u8>>>::empty());
        assert(all_messages(all.drop_first()) =~= Seq::<Seq<u8>>::empty());
        assert(all_messages(all) =~= all_messages(batches) + reply::payloads(more@));
    } else {
        lemma_one_batch_more(batches.drop_first(), more);
        assert(all.drop_first() =~= batches.drop_first().push(more));
        assert(all_messages(all) =~= all_messages(batches) + reply::payloads(more@));
    }
}

/// An answer that is being sent.
pub struct PendingResponse {
    pub headers: HeaderBlock,
    pub batches: Chain,
    pub trailers: Option<HeaderBlock>,
    pub headers_sent: bool,
    pub message_pos: usize,
    pub frame_pos: usize,
    pub remaining_bytes: usize,
}

pub type Replies = Chains<Vec<Vec<u8>>>;

pub open spec fn block_view(b: Option<HeaderBlock>) -> Option<Seq<FieldView>> {
    match b {
        Some(b) => Some(b@),
        None => None,
    }
}

/// How many messages are left in each of several answers, of which `pos` were sent.
pub open spec fn batch_lens(batches: Seq<Vec<Vec<u8>>>, pos: int) -> Seq<nat> {
    Seq::new(
        batches.len(),
        |i: int|
            if i == 0 {
                (batches[0]@.len() - pos) as nat
            } else {
                batches[i]@.len()
            },
    )
}

pub open spec fn pending_view(p: PendingResponse, c: Replies) -> PendingView {
    PendingView {
        fields: p.headers@,
        messages: all_messages(c.items(p.batches)).skip(p.message_pos as int),
        batches: batch_lens(c.items(p.batches), p.message_pos as int),
        trailers: block_view(p.trailers),
        headers_sent: p.headers_sent,
        frame_pos: p.frame_pos as nat,
        remaining: p.remaining_bytes,
    }
}

pub open spec fn pending_ok(p: PendingResponse, c: Replies) -> bool {
    &&& c.holds(p.batches)
    &&& forall|i: int|
        0 <= i < c.items(p.batches).len() ==> (#[trigger] c.items(p.batches)[i])@.len() > 0
    &&& if c.items(p.batches).len() > 0 {
        p.message_pos < c.items(p.batches)[0]@.len()
    } else {
        p.message_pos == 0
    }
    &&& p.frame_pos <= (if pending_view(p, c).messages.len() > 0 {
        pending_view(p, c).messages[0].len() + frame::PREFIX_LEN
    } else {
        0
    })
}

/// The first messages lie in the first batch.
proof fn lemma_first_batch(batches: Seq<Vec<Vec<u8>>>, pos: int)
    requires
        batches.len() > 0,
        0 <= pos <= batches[0]@.len(),
    ensures
        all_messages(batches).len() >= batches[0]@.len(),
        pos < batches[0]@.len() ==> all_messages(batches).skip(pos).len() > 0 && all_messages(
            batches,
        ).skip(pos)[0] == batches[0]@[pos]@ && all_messages(batches).skip(pos).drop_first()
            == all_messages(batches).skip(pos + 1),
        pos == batches[0]@.len() ==> all_messages(batches).skip(pos) == all_messages(
            batches.drop_first(),
        ).skip(0),
{
    let first = reply::payloads(batches[0]@);
    let rest = all_messages(batches.drop_first());
    let all = first + rest;
    if pos < batches[0]@.len() {
        assert(all.skip(pos)[0] == first[pos]);
        assert(all.skip(pos).drop_first() =~= all.skip(pos + 1));
    } else {
        assert(all.skip(pos) =~= rest.skip(0));
    }
}

impl PendingResponse {
    /// Sends the messages and the end, as far as it goes.
    fn drive_messages(
        &mut self,
        replies: &mut Replies,
        pending_len: &mut usize,
        conn: &mut Conn<ServerRole>,
        stream_id: StreamId,
    ) -> (r: Driven)
        requires
            old(conn).wf(),
            pending_ok(*old(self), *old(replies)),
        ensures
            final(conn).wf(),
            pending_ok(*final(self), *final(replies)),
            (
                final(conn)@,
                pending_view(*final(self), *final(replies)),
                *final(pending_len),
                r,
            ) == model::messages_driven(
                old(conn)@,
                stream_id.value(),
                pending_view(*old(self), *old(replies)),
                *old(pending_len),
            ),
            chains::moved(*old(replies), old(self).batches, *final(replies), final(self).batches),
            final(replies).items(final(self).batches).len() <= old(replies).items(
                old(self).batches,
            ).len(),
            final(replies).room() == old(replies).room().fewer(
                (old(replies).items(old(self).batches).len() - final(replies).items(
                    final(self).batches,
                ).len()) as nat,
            ),
    {
        let ghost id = stream_id.value();
        let ghost c = conn@;
        let ghost p = pending_view(*self, *replies);
        let ghost len = *pending_len;
        let ghost start = *replies;
        let ghost first = self.batches;
        proof {
            chains::lemma_moved_within(start, first, start, first);
        }
        while !replies.is_empty(&self.batches)
            invariant
                conn.wf(),
                pending_ok(*self, *replies),
                id == stream_id.value(),
                c == old(conn)@,
                p == pending_view(*old(self), *old(replies)),
                len == *old(pending_len),
                start == *old(replies),
                first == old(self).batches,
                model::messages_driven(c, id, p, len) == model::messages_driven(
                    conn@,
                    id,
                    pending_view(*self, *replies),
                    *pending_len,
                ),
                chains::moved(start, first, *replies, self.batches),
                replies.items(self.batches).len() <= start.items(first).len(),
                start.items(first).len() - replies.items(self.batches).len() <= start.room().held,
                replies.room() == start.room().fewer(
                    (start.items(first).len() - replies.items(self.batches).len()) as nat,
                ),
            decreases
                    pending_view(*self, *replies).messages.len(),
                    (if pending_view(*self, *replies).messages.len() > 0 {
                        pending_view(*self, *replies).messages[0].len() + frame::PREFIX_LEN
                            - self.frame_pos
                    } else {
                        0
                    }),
        {
            let ghost items = replies.items(self.batches);
            let ghost view = pending_view(*self, *replies);
            let ghost held = self.batches;
            let ghost at = *replies;
            proof {
                lemma_first_batch(items, self.message_pos as int);
            }
            let batch: &Vec<Vec<u8>> = match replies.front(&self.batches) {
                Some(batch) => batch,
                None => return Driven::Failed,
            };
            let last: bool = batch.len() - self.message_pos == 1;
            let payload: &Vec<u8> = &batch[self.message_pos];
            assert(view.messages[0] == payload@);
            let header: Vec<u8> = match MessageFrame::header(false, payload.len()) {
                Ok(header) => header,
                Err(_) => return Driven::Failed,
            };
            if payload.len() > usize::MAX - frame::PREFIX_LEN {
                return Driven::Failed;
            }
            let total: usize = payload.len() + frame::PREFIX_LEN;
            let ghost whole = frame::framed(reply::plain(payload@));
            let ghost rest = whole.skip(self.frame_pos as int);
            proof {
                conn_model::lemma_sending_keeps_ingress(conn@, id);
                assert(whole =~= header@ + payload@);
            }
            let sent = if self.frame_pos < header.len() {
                let left: &[u8] = vstd::slice::slice_subrange(
                    header.as_slice(),
                    self.frame_pos,
                    header.len(),
                );
                assert(left@ + payload@ =~= rest);
                conn.send_data_parts(stream_id, left, payload.as_slice(), false)
            } else {
                let left: &[u8] = vstd::slice::slice_subrange(
                    payload.as_slice(),
                    self.frame_pos - header.len(),
                    payload.len(),
                );
                assert(left@ =~= rest);
                conn.send_data(stream_id, left, false)
            };
            let n: usize = match sent {
                Ok(n) => n,
                Err(_) => return Driven::Failed,
            };
            if n == 0 {
                return Driven::Blocked;
            }
            self.frame_pos = self.frame_pos + n;
            *pending_len = pending_len.saturating_sub(n);
            self.remaining_bytes = self.remaining_bytes.saturating_sub(n);
            if self.frame_pos == total {
                self.frame_pos = 0;
                if last {
                    proof {
                        lemma_first_batch(items, self.message_pos + 1);
                    }
                    let _ = replies.pop_front(&mut self.batches);
                    self.message_pos = 0;
                    proof {
                        let rest = replies.items(self.batches);
                        assert(rest =~= items.drop_first());
                        assert forall|i: int| 0 <= i < rest.len() implies (#[trigger] rest[i])@.len()
                            > 0 by {
                            assert(rest[i] == items[i + 1]);
                        }
                        chains::lemma_moved_within(at, held, *replies, self.batches);
                        chains::lemma_moved_on(start, first, at, held, *replies, self.batches);
                    }
                } else {
                    self.message_pos = self.message_pos + 1;
                }
                assert(pending_view(*self, *replies).messages =~= view.messages.drop_first());
                assert(pending_view(*self, *replies).batches =~= model::shorter(view.batches));
            } else {
                assert(pending_view(*self, *replies).messages =~= view.messages);
            }
        }
        assert(pending_view(*self, *replies).messages =~= Seq::<Seq<u8>>::empty());
        match &self.trailers {
            None => Driven::Idle,
            Some(block) => {
                let fields = block.as_h2();
                match conn.send_trailers(stream_id, fields.as_slice()) {
                    Ok(_) => Driven::Complete,
                    Err(_) => Driven::Failed,
                }
            },
        }
    }

    /// Sends as far as it goes.
    pub fn drive(
        &mut self,
        replies: &mut Replies,
        pending_len: &mut usize,
        conn: &mut Conn<ServerRole>,
        stream_id: StreamId,
    ) -> (r: Driven)
        requires
            old(conn).wf(),
            pending_ok(*old(self), *old(replies)),
        ensures
            final(conn).wf(),
            pending_ok(*final(self), *final(replies)),
            (
                final(conn)@,
                pending_view(*final(self), *final(replies)),
                *final(pending_len),
                r,
            ) == model::response_driven(
                old(conn)@,
                stream_id.value(),
                pending_view(*old(self), *old(replies)),
                *old(pending_len),
            ),
            chains::moved(*old(replies), old(self).batches, *final(replies), final(self).batches),
            final(replies).items(final(self).batches).len() <= old(replies).items(
                old(self).batches,
            ).len(),
            final(replies).room() == old(replies).room().fewer(
                (old(replies).items(old(self).batches).len() - final(replies).items(
                    final(self).batches,
                ).len()) as nat,
            ),
    {
        proof {
            chains::lemma_moved_within(*replies, self.batches, *replies, self.batches);
        }
        if !self.headers_sent {
            let fields = self.headers.as_h2();
            match conn.send_response(stream_id, fields.as_slice(), false) {
                Ok(_) => {},
                Err(_) => return Driven::Failed,
            }
            self.headers_sent = true;
        }
        self.drive_messages(replies, pending_len, conn, stream_id)
    }
}

/// A request that is not complete.
pub struct StreamState {
    pub head: RequestHead,
    pub deframer: Deframer,
    pub messages: Chain,
    pub message_count: usize,
    pub trailers: Metadata,
    pub mode: StreamMode,
    pub buffered_len: usize,
}

/// A call.
pub struct CallRecord {
    pub stream_id: StreamId,
    pub stream: Option<StreamState>,
    pub pending: Option<PendingResponse>,
    pub queued: bool,
}

pub type Messages = Chains<MessageFrame>;

pub open spec fn stream_view(s: StreamState, c: Messages) -> StreamView {
    StreamView {
        head: s.head@,
        deframer: s.deframer@,
        messages: frame::frame_views(c.items(s.messages)),
        trailers: s.trailers@,
        mode: s.mode,
        buffered_len: s.buffered_len,
    }
}

pub open spec fn call_view(r: CallRecord, m: Messages, c: Replies) -> CallView {
    CallView {
        stream: match r.stream {
            Some(s) => Some(stream_view(s, m)),
            None => None,
        },
        pending: match r.pending {
            Some(p) => Some(pending_view(p, c)),
            None => None,
        },
        queued: r.queued,
    }
}

pub open spec fn call_views(entries: Map<u32, CallRecord>, m: Messages, c: Replies) -> Map<
    u32,
    CallView,
> {
    Map::new(|id: u32| entries.contains_key(id), |id: u32| call_view(entries[id], m, c))
}

/// The queues of messages.
pub open spec fn message_chains(entries: Map<u32, CallRecord>) -> Map<u32, Chain> {
    Map::new(
        |id: u32| entries.contains_key(id) && entries[id].stream is Some,
        |id: u32| entries[id].stream->0.messages,
    )
}

/// The queues of answers.
pub open spec fn reply_chains(entries: Map<u32, CallRecord>) -> Map<u32, Chain> {
    Map::new(
        |id: u32| entries.contains_key(id) && entries[id].pending is Some,
        |id: u32| entries[id].pending->0.batches,
    )
}

pub open spec fn record_ok(r: CallRecord, id: u32, m: Messages, c: Replies) -> bool {
    &&& r.stream_id.value() == id
    &&& match r.stream {
        Some(s) => s.deframer@.sound() && s.message_count == m.items(s.messages).len(),
        None => true,
    }
    &&& match r.pending {
        Some(p) => pending_ok(p, c),
        None => true,
    }
}

/// Whether the calls, their messages and their answers fit together.
pub open spec fn store_ok(entries: Map<u32, CallRecord>, m: Messages, c: Replies) -> bool {
    &&& chains::separate(m, message_chains(entries))
    &&& chains::separate(c, reply_chains(entries))
    &&& forall|id: u32| #[trigger]
        entries.contains_key(id) ==> record_ok(entries[id], id, m, c)
}

/// Whether nothing has happened to the queues of other calls.
pub open spec fn others_kept(
    entries: Map<u32, CallRecord>,
    id: u32,
    m: Messages,
    c: Replies,
    n: Messages,
    d: Replies,
) -> bool {
    &&& forall|k: u32| #[trigger]
        message_chains(entries).contains_key(k) && k != id ==> m.keeps(
            &n,
            message_chains(entries)[k],
        )
    &&& forall|k: u32| #[trigger]
        reply_chains(entries).contains_key(k) && k != id ==> c.keeps(
            &d,
            reply_chains(entries)[k],
        )
}

/// Nothing has happened at all.
proof fn lemma_untouched(entries: Map<u32, CallRecord>, id: u32, m: Messages, c: Replies)
    requires
        store_ok(entries, m, c),
    ensures
        others_kept(entries, id, m, c, m, c),
{
}

/// Other calls are as they were.
proof fn lemma_others(
    entries: Map<u32, CallRecord>,
    id: u32,
    m: Messages,
    c: Replies,
    n: Messages,
    d: Replies,
)
    requires
        store_ok(entries, m, c),
        others_kept(entries, id, m, c, n, d),
    ensures
        forall|k: u32| #[trigger]
            entries.contains_key(k) && k != id ==> record_ok(entries[k], k, n, d) && call_view(
                entries[k],
                n,
                d,
            ) == call_view(entries[k], m, c),
{
    assert forall|k: u32| #[trigger] entries.contains_key(k) && k != id implies record_ok(
        entries[k],
        k,
        n,
        d,
    ) && call_view(entries[k], n, d) == call_view(entries[k], m, c) by {
        let r = entries[k];
        if r.stream is Some {
            assert(message_chains(entries).contains_key(k));
            assert(m.keeps(&n, message_chains(entries)[k]));
        }
        if r.pending is Some {
            assert(reply_chains(entries).contains_key(k));
            assert(c.keeps(&d, reply_chains(entries)[k]));
        }
    }
}

/// A call has changed.
proof fn lemma_changed(
    entries: Map<u32, CallRecord>,
    id: u32,
    r: CallRecord,
    m: Messages,
    c: Replies,
    n: Messages,
    d: Replies,
)
    requires
        store_ok(entries, m, c),
        others_kept(entries, id, m, c, n, d),
        chains::separate(n, message_chains(entries.insert(id, r))),
        chains::separate(d, reply_chains(entries.insert(id, r))),
        record_ok(r, id, n, d),
    ensures
        store_ok(entries.insert(id, r), n, d),
        call_views(entries.insert(id, r), n, d) == call_views(entries, m, c).insert(
            id,
            call_view(r, n, d),
        ),
{
    lemma_others(entries, id, m, c, n, d);
    let next = entries.insert(id, r);
    assert forall|k: u32| #[trigger] next.contains_key(k) implies record_ok(next[k], k, n, d) by {
        if k != id {
            assert(entries.contains_key(k));
        }
    }
    assert(call_views(next, n, d) =~= call_views(entries, m, c).insert(id, call_view(r, n, d))) by {
        assert forall|k: u32| next.contains_key(k) && k != id implies call_view(next[k], n, d)
            == call_view(entries[k], m, c) by {
            assert(entries.contains_key(k));
        }
    }
}

/// A call has changed, but none of the queues.
proof fn lemma_touched(
    entries: Map<u32, CallRecord>,
    id: u32,
    r: CallRecord,
    m: Messages,
    c: Replies,
)
    requires
        store_ok(entries, m, c),
        entries.contains_key(id),
        record_ok(r, id, m, c),
        r.stream is Some <==> entries[id].stream is Some,
        r.stream is Some ==> r.stream->0.messages == entries[id].stream->0.messages,
        r.pending is Some <==> entries[id].pending is Some,
        r.pending is Some ==> r.pending->0.batches == entries[id].pending->0.batches,
    ensures
        store_ok(entries.insert(id, r), m, c),
        call_views(entries.insert(id, r), m, c) == call_views(entries, m, c).insert(
            id,
            call_view(r, m, c),
        ),
{
    let next = entries.insert(id, r);
    assert(message_chains(next) =~= message_chains(entries));
    assert(reply_chains(next) =~= reply_chains(entries));
    lemma_untouched(entries, id, m, c);
    lemma_changed(entries, id, r, m, c, m, c);
}

/// A call is gone.
proof fn lemma_gone(
    entries: Map<u32, CallRecord>,
    id: u32,
    m: Messages,
    c: Replies,
    n: Messages,
    d: Replies,
)
    requires
        store_ok(entries, m, c),
        others_kept(entries, id, m, c, n, d),
        chains::separate(n, message_chains(entries.remove(id))),
        chains::separate(d, reply_chains(entries.remove(id))),
    ensures
        store_ok(entries.remove(id), n, d),
        call_views(entries.remove(id), n, d) == call_views(entries, m, c).remove(id),
{
    lemma_others(entries, id, m, c, n, d);
    let next = entries.remove(id);
    assert forall|k: u32| #[trigger] next.contains_key(k) implies record_ok(next[k], k, n, d) by {
        assert(entries.contains_key(k));
    }
    assert(call_views(next, n, d) =~= call_views(entries, m, c).remove(id)) by {
        assert forall|k: u32| next.contains_key(k) implies call_view(next[k], n, d) == call_view(
            entries[k],
            m,
            c,
        ) by {
            assert(entries.contains_key(k));
        }
    }
}

/// The calls of a server, what came in of each, and what is left to send.
pub struct CallStore {
    records: Table<CallRecord>,
    messages: Messages,
    buffered_total: usize,
    queue: Queue<u32>,
    replies: Replies,
    pending_len: usize,
    pending_capacity: usize,
}

/// A request that was taken out of its call.
pub struct TakenStream {
    pub head: RequestHead,
    pub messages: Vec<MessageFrame>,
    pub trailers: Metadata,
    pub mode: StreamMode,
}

impl CallStore {
    pub closed spec fn view(&self) -> CallsView {
        CallsView {
            calls: call_views(self.records.entries(), self.messages, self.replies),
            capacity: self.records.limit(),
            messages: self.messages.room(),
            replies: self.replies.room(),
            buffered: self.buffered_total,
            queue: self.queue.items(),
            queue_capacity: self.queue.limit(),
            pending_len: self.pending_len,
            pending_capacity: self.pending_capacity,
        }
    }

    pub closed spec fn wf(&self) -> bool {
        store_ok(self.records.entries(), self.messages, self.replies)
    }

    /// No calls, with room for `streams` of them, for `messages` messages that came in, and for
    /// `batches` batches of messages that wait to be sent.
    pub fn with_capacity(streams: usize, messages: usize, batches: usize, bytes: usize) -> (r: Self)
        requires
            streams <= u32::MAX,
            messages < u32::MAX,
            batches < u32::MAX,
        ensures
            r.wf(),
            r@ == (CallsView {
                calls: Map::empty(),
                capacity: streams as nat,
                messages: Room { held: 0, limit: messages as nat, spent: 0 },
                replies: Room { held: 0, limit: batches as nat, spent: 0 },
                buffered: 0,
                queue: Seq::empty(),
                queue_capacity: streams as nat,
                pending_len: 0,
                pending_capacity: bytes,
            }),
    {
        let r = CallStore {
            records: Table::with_capacity(streams),
            messages: Chains::with_capacity(messages),
            buffered_total: 0,
            queue: Queue::with_capacity(streams),
            replies: Chains::with_capacity(batches),
            pending_len: 0,
            pending_capacity: bytes,
        };
        assert(r@.calls =~= Map::<u32, CallView>::empty());
        r
    }

    /// Adds a call; the result says whether there was room.
    pub fn insert(
        &mut self,
        stream_id: StreamId,
        head: RequestHead,
        mode: StreamMode,
        max_message_len: usize,
    ) -> (r: bool)
        requires
            old(self).wf(),
        ensures
            final(self).wf(),
            (final(self)@, r) == model::inserted(
                old(self)@,
                stream_id.value(),
                model::new_stream(head@, mode, max_message_len),
            ),
    {
        let ghost id = stream_id.value();
        let ghost entries = self.records.entries();
        let ghost before = self@;
        let record = CallRecord {
            stream_id,
            stream: Some(
                StreamState {
                    head,
                    deframer: Deframer::new(max_message_len),
                    messages: self.messages.chain(),
                    message_count: 0,
                    trailers: Metadata::new(),
                    mode,
                    buffered_len: 0,
                },
            ),
            pending: None,
            queued: false,
        };
        proof {
            assert(before.calls.dom() =~= entries.dom());
            if !entries.contains_key(id) {
                let next = entries.insert(id, record);
                let chain = record.stream->0.messages;
                chains::lemma_one_more(self.messages, message_chains(entries), id, chain);
                assert(message_chains(next) =~= message_chains(entries).insert(id, chain));
                assert(reply_chains(next) =~= reply_chains(entries));
                assert(frame::frame_views(self.messages.items(chain)) =~= Seq::<FrameView>::empty());
                lemma_untouched(entries, id, self.messages, self.replies);
                lemma_changed(
                    entries,
                    id,
                    record,
                    self.messages,
                    self.replies,
                    self.messages,
                    self.replies,
                );
                assert(call_view(record, self.messages, self.replies) =~= CallView {
                    stream: Some(model::new_stream(head@, mode, max_message_len)),
                    pending: None,
                    queued: false,
                });
            }
        }
        match self.records.try_insert(stream_id.as_u32(), record) {
            Ok(_) => true,
            Err(_) => false,
        }
    }

    /// How the request of a call is served, if there is one.
    pub fn mode(&self, stream_id: StreamId) -> (r: Option<StreamMode>)
        ensures
            r == (match self@.stream(stream_id.value()) {
                Some(s) => Some(s.mode),
                None => None,
            }),
    {
        match self.records.get(stream_id.as_u32()) {
            Some(record) => match &record.stream {
                Some(stream) => Some(stream.mode),
                None => None,
            },
            None => None,
        }
    }

    /// Forgets a call: what came in of it, and what was left to send.
    pub fn remove(&mut self, stream_id: StreamId)
        requires
            old(self).wf(),
        ensures
            final(self).wf(),
            final(self)@ == model::removed(old(self)@, stream_id.value()),
    {
        let ghost id = stream_id.value();
        let ghost entries = self.records.entries();
        let ghost before = self@;
        let ghost m = self.messages;
        let ghost c = self.replies;
        match self.records.remove(stream_id.as_u32()) {
            None => {
                assert(self.records.entries() =~= entries);
            },
            Some(record) => {
                let CallRecord { stream_id: _, stream, pending, queued } = record;
                let ghost left = entries.remove(id);
                proof {
                    assert(message_chains(left) =~= message_chains(entries).remove(id));
                    assert(reply_chains(left) =~= reply_chains(entries).remove(id));
                    chains::lemma_fewer(m, message_chains(entries), id);
                    chains::lemma_fewer(c, reply_chains(entries), id);
                    lemma_untouched(entries, id, m, c);
                }
                if queued {
                    self.queue.remove_value(stream_id.as_u32());
                }
                if let Some(mut pending) = pending {
                    proof {
                        assert(reply_chains(entries).contains_key(id));
                        assert(c.holds(pending.batches));
                    }
                    self.pending_len = self.pending_len.saturating_sub(pending.remaining_bytes);
                    let ghost chain = pending.batches;
                    let _ = self.replies.take_all(&mut pending.batches);
                    proof {
                        chains::lemma_without(c, reply_chains(entries), id, self.replies);
                    }
                }
                if let Some(mut stream) = stream {
                    proof {
                        assert(message_chains(entries).contains_key(id));
                        assert(m.holds(stream.messages));
                    }
                    self.buffered_total = self.buffered_total.saturating_sub(stream.buffered_len);
                    let _ = self.messages.take_all(&mut stream.messages);
                    proof {
                        chains::lemma_without(m, message_chains(entries), id, self.messages);
                    }
                }
                proof {
                    lemma_gone(entries, id, m, c, self.messages, self.replies);
                }
            },
        }
    }

    /// Takes the request out of a call.
    pub fn take_stream(&mut self, stream_id: StreamId) -> (r: Option<TakenStream>)
        requires
            old(self).wf(),
        ensures
            final(self).wf(),
            final(self)@ == model::taken(old(self)@, stream_id.value()),
            match r {
                None => old(self)@.stream(stream_id.value()) is None,
                Some(t) => old(self)@.stream(stream_id.value()) matches Some(s) && t.head@ == s.head
                    && frame::frame_views(t.messages@) == s.messages && t.trailers@ == s.trailers
                    && t.mode == s.mode,
            },
    {
        let ghost id = stream_id.value();
        let ghost entries = self.records.entries();
        let ghost before = self@;
        let ghost m = self.messages;
        let ghost c = self.replies;
        let ghost mut next: CallRecord = entries[id];
        let mut taken: Option<StreamState> = None;
        match self.records.get_mut(stream_id.as_u32()) {
            None => {},
            Some(record) => {
                std::mem::swap(&mut taken, &mut record.stream);
                proof {
                    next = *record;
                }
            },
        }
        match taken {
            None => {
                proof {
                    if entries.contains_key(id) {
                        assert(next == entries[id]);
                        assert(self.records.entries() =~= entries);
                    } else {
                        assert(self.records.entries() =~= entries);
                    }
                }
                None
            },
            Some(stream) => {
                let StreamState {
                    head,
                    deframer: _,
                    messages: mut chain,
                    message_count: _,
                    trailers,
                    mode,
                    buffered_len,
                } = stream;
                let ghost all = entries.insert(id, next);
                proof {
                    assert(message_chains(entries).contains_key(id));
                    assert(message_chains(all) =~= message_chains(entries).remove(id));
                    assert(reply_chains(all) =~= reply_chains(entries));
                    lemma_untouched(entries, id, m, c);
                }
                self.buffered_total = self.buffered_total.saturating_sub(buffered_len);
                let messages: Vec<MessageFrame> = self.messages.take_all(&mut chain);
                proof {
                    chains::lemma_without(m, message_chains(entries), id, self.messages);
                    lemma_changed(entries, id, next, m, c, self.messages, self.replies);
                    assert(self.records.entries() =~= all);
                    assert(call_view(next, self.messages, self.replies) =~= CallView {
                        stream: None,
                        ..before.calls[id]
                    });
                }
                Some(TakenStream { head, messages, trailers, mode })
            },
        }
    }

    /// Forgets a call of which nothing is left.
    fn remove_empty(&mut self, stream_id: StreamId)
        requires
            old(self).wf(),
        ensures
            final(self).wf(),
            final(self)@ == model::emptied(old(self)@, stream_id.value()),
    {
        let ghost id = stream_id.value();
        let ghost entries = self.records.entries();
        let empty: bool = match self.records.get(stream_id.as_u32()) {
            Some(record) => record.stream.is_none() && record.pending.is_none(),
            None => false,
        };
        if empty {
            proof {
                let left = entries.remove(id);
                assert(message_chains(left) =~= message_chains(entries));
                assert(reply_chains(left) =~= reply_chains(entries));
                lemma_untouched(entries, id, self.messages, self.replies);
                lemma_gone(
                    entries,
                    id,
                    self.messages,
                    self.replies,
                    self.messages,
                    self.replies,
                );
            }
            let _ = self.records.remove(stream_id.as_u32());
        }
    }

    /// The fields at the end of a request.
    pub fn set_trailers(&mut self, stream_id: StreamId, trailers: Metadata)
        requires
            old(self).wf(),
        ensures
            final(self).wf(),
            final(self)@ == (match old(self)@.stream(stream_id.value()) {
                None => old(self)@,
                Some(s) => old(self)@.with(
                    stream_id.value(),
                    CallView {
                        stream: Some(StreamView { trailers: trailers@, ..s }),
                        ..old(self)@.calls[stream_id.value()]
                    },
                ),
            }),
    {
        let ghost id = stream_id.value();
        let ghost entries = self.records.entries();
        let ghost before = self@;
        let ghost view = trailers@;
        let ghost mut next: CallRecord = entries[id];
        match self.records.get_mut(stream_id.as_u32()) {
            None => {},
            Some(record) => {
                match &mut record.stream {
                    None => {},
                    Some(stream) => {
                        stream.trailers = trailers;
                    },
                }
                proof {
                    next = *record;
                }
            },
        }
        proof {
            if entries.contains_key(id) {
                lemma_touched(entries, id, next, self.messages, self.replies);
                assert(self.records.entries() =~= entries.insert(id, next));
                if entries[id].stream is Some {
                    assert(call_view(next, self.messages, self.replies) =~= CallView {
                        stream: Some(StreamView { trailers: view, ..before.calls[id].stream->0 }),
                        ..before.calls[id]
                    });
                } else {
                    assert(next == entries[id]);
                    assert(entries.insert(id, next) =~= entries);
                }
            } else {
                assert(self.records.entries() =~= entries);
            }
        }
    }

    /// Whether a place in the pool is needed to go on with the bytes of a request.
    pub fn needs_place(&self, stream_id: StreamId, input: &DataChunk) -> (r: bool)
        requires
            self.wf(),
            self@.stream(stream_id.value()) is Some,
        ensures
            r == frame::needs_place(self@.stream(stream_id.value())->0.deframer, input@),
            self@.stream(stream_id.value())->0.deframer.sound(),
    {
        match self.records.get(stream_id.as_u32()) {
            None => false,
            Some(record) => {
                assert(record_ok(*record, stream_id.value(), self.messages, self.replies));
                match &record.stream {
                    None => false,
                    Some(stream) => stream.deframer.needs_place(input),
                }
            },
        }
    }

    /// The next message in the bytes of a request. A request whose bytes cannot be read is
    /// forgotten.
    pub fn next_message(
        &mut self,
        stream_id: StreamId,
        input: &mut DataChunk,
        place: Option<Permit>,
    ) -> (r: Result<Option<MessageFrame>, FrameError>)
        requires
            old(self).wf(),
            old(self)@.stream(stream_id.value()) is Some,
            old(input)@.len() > 0,
        ensures
            final(self).wf(),
            ({
                let s = old(self)@.stream(stream_id.value())->0;
                let want = frame::deframed(s.deframer, old(input)@, place is Some);
                let read = old(self)@.with(
                    stream_id.value(),
                    CallView {
                        stream: Some(StreamView { deframer: want.0, ..s }),
                        ..old(self)@.calls[stream_id.value()]
                    },
                );
                &&& frame::next_is(want, want.0, final(input)@, r)
                &&& final(self)@ == (if r is Ok {
                    read
                } else {
                    model::removed(read, stream_id.value())
                })
            }),
    {
        let ghost id = stream_id.value();
        let ghost entries = self.records.entries();
        let ghost before = self@;
        let ghost all = input@;
        let ghost s = before.stream(id)->0;
        let ghost mut next: CallRecord = entries[id];
        let ghost mut after: frame::DeframerView = s.deframer;
        let ghost granted = place is Some;
        proof {
            assert(record_ok(entries[id], id, self.messages, self.replies));
            frame::lemma_places(s.deframer, all);
        }
        let mut fresh: Deframer = Deframer::new(0);
        let mut failed: bool = true;
        let mut r: Result<Option<MessageFrame>, FrameError> = Ok(None);
        match self.records.get_mut(stream_id.as_u32()) {
            None => {},
            Some(record) => {
                match &mut record.stream {
                    None => {},
                    Some(stream) => {
                        std::mem::swap(&mut fresh, &mut stream.deframer);
                        r = fresh.next_with(input, place);
                        proof {
                            after = fresh@;
                        }
                        if r.is_ok() {
                            failed = false;
                            std::mem::swap(&mut fresh, &mut stream.deframer);
                        }
                    },
                }
                proof {
                    next = *record;
                }
            },
        }
        proof {
            if !failed {
                frame::lemma_read_on(s.deframer, all, granted);
            }
            lemma_touched(entries, id, next, self.messages, self.replies);
            assert(self.records.entries() =~= entries.insert(id, next));
        }
        if failed {
            let ghost mid = self@;
            self.remove(stream_id);
            proof {
                let read = before.with(
                    id,
                    CallView {
                        stream: Some(StreamView { deframer: after, ..s }),
                        ..before.calls[id]
                    },
                );
                assert(model::removed(mid, id).calls =~= model::removed(read, id).calls);
            }
        } else {
            assert(self@.calls =~= before.calls.insert(
                id,
                CallView {
                    stream: Some(StreamView { deframer: after, ..s }),
                    ..before.calls[id]
                },
            ));
        }
        r
    }

    /// Keeps a message of a request until the request is complete; the result says whether it
    /// was within the limits and there was a slot for it.
    pub fn push_message(
        &mut self,
        stream_id: StreamId,
        message: MessageFrame,
        limits: &Limits,
    ) -> (r: bool)
        requires
            old(self).wf(),
        ensures
            final(self).wf(),
            exists|place: bool|
                (match #[trigger] model::message_kept(
                    old(self)@,
                    stream_id.value(),
                    message@,
                    *limits,
                    place,
                ) {
                    Some(v) => r && final(self)@ == v,
                    None => !r && final(self)@ == old(self)@,
                }),
    {
        let ghost id = stream_id.value();
        let ghost entries = self.records.entries();
        let ghost before = self@;
        let ghost m = self.messages;
        let ghost c = self.replies;
        let ghost view = message@;
        let added: usize = message.payload.len();
        proof {
            let _ = model::message_kept(before, id, view, *limits, false);
        }
        let fits: bool = match self.records.get(stream_id.as_u32()) {
            None => false,
            Some(record) => {
                assert(record_ok(*record, id, m, c));
                match &record.stream {
                    None => false,
                    Some(stream) => stream.buffered_len.saturating_add(added)
                        <= limits.max_buffered_len && stream.message_count
                        < limits.max_buffered_msgs,
                }
            },
        };
        if !fits || self.buffered_total.saturating_add(added) > limits.max_conn_buffered_len {
            return false;
        }
        let ghost mut next: CallRecord = entries[id];
        let mut kept: bool = false;
        proof {
            assert(message_chains(entries).contains_key(id));
            chains::lemma_moved_within(
                m,
                entries[id].stream->0.messages,
                m,
                entries[id].stream->0.messages,
            );
        }
        match self.records.get_mut(stream_id.as_u32()) {
            None => {},
            Some(record) => {
                match &mut record.stream {
                    None => {},
                    Some(stream) => {
                        let ghost list = self.messages.items(stream.messages);
                        match self.messages.push_back(&mut stream.messages, message) {
                            Err(_) => {},
                            Ok(_) => {
                                stream.message_count = stream.message_count + 1;
                                stream.buffered_len = stream.buffered_len.saturating_add(added);
                                kept = true;
                                assert(frame::frame_views(self.messages.items(stream.messages))
                                    =~= frame::frame_views(list).push(view));
                            },
                        }
                    },
                }
                proof {
                    next = *record;
                }
            },
        }
        proof {
            let all = entries.insert(id, next);
            let chain = next.stream->0.messages;
            chains::lemma_replaced(m, message_chains(entries), id, self.messages, chain);
            assert(message_chains(all) =~= message_chains(entries).insert(id, chain));
            assert(reply_chains(all) =~= reply_chains(entries));
            lemma_changed(entries, id, next, m, c, self.messages, self.replies);
            assert(self.records.entries() =~= all);
        }
        if kept {
            self.buffered_total = self.buffered_total.saturating_add(added);
            proof {
                let _ = model::message_kept(before, id, view, *limits, true);
            }
        } else {
            assert(call_view(next, self.messages, self.replies) =~= before.calls[id]);
            assert(self@.calls =~= before.calls);
        }
        kept
    }

    /// The bytes that messages take.
    fn framed_len(messages: &Vec<Vec<u8>>) -> (r: Result<usize, Status>)
        ensures
            match r {
                Ok(total) => model::framed_len(reply::payloads(messages@), 0) == Ok::<
                    nat,
                    StatusView,
                >(total as nat),
                Err(s) => model::framed_len(reply::payloads(messages@), 0) == Err::<
                    nat,
                    StatusView,
                >(s@),
            },
    {
        let ghost all = reply::payloads(messages@);
        let mut total: usize = 0;
        let mut i: usize = 0;
        assert(all.skip(0) =~= all);
        while i < messages.len()
            invariant
                i <= messages@.len(),
                all == reply::payloads(messages@),
                model::framed_len(all, 0) == model::framed_len(all.skip(i as int), total as nat),
            decreases messages@.len() - i,
        {
            let ghost rest = all.skip(i as int);
            assert(rest[0] == messages@[i as int]@);
            assert(rest.drop_first() =~= all.skip(i + 1));
            let len: usize = messages[i].len();
            if len > 0xffff_ffff {
                return Err(Status::new(Code::Internal, "response message too large"));
            }
            let framed: usize = match len.checked_add(frame::PREFIX_LEN) {
                Some(framed) => framed,
                None => {
                    return Err(
                        Status::new(Code::ResourceExhausted, "pending response bytes are full"),
                    );
                },
            };
            total = match total.checked_add(framed) {
                Some(total) => total,
                None => {
                    return Err(
                        Status::new(Code::ResourceExhausted, "pending response bytes are full"),
                    );
                },
            };
            i = i + 1;
        }
        Ok(total)
    }

    /// Keeps a piece of an answer until it can be sent.
    pub fn enqueue(&mut self, stream_id: StreamId, reply: StreamReply) -> (r: Result<(), Status>)
        requires
            old(self).wf(),
        ensures
            final(self).wf(),
            exists|place: bool|
                outcome(
                    #[trigger] model::enqueued(old(self)@, stream_id.value(), reply@, place),
                    final(self)@,
                    r,
                ),
    {
        let ghost id = stream_id.value();
        let ghost before = self@;
        let ghost asked = reply@;
        proof {
            let _ = model::enqueued(before, id, asked, false);
        }
        let StreamReply { metadata, messages, trailers, status } = reply;
        if messages.len() == 0 && status.is_none() && metadata.entries().len() == 0 {
            return Ok(());
        }
        let added: usize = match CallStore::framed_len(&messages) {
            Ok(added) => added,
            Err(failure) => return Err(failure),
        };
        let total: usize = match self.pending_len.checked_add(added) {
            Some(total) => total,
            None => {
                return Err(
                    Status::new(Code::ResourceExhausted, "pending response bytes are full"),
                );
            },
        };
        if total > self.pending_capacity {
            return Err(Status::new(Code::ResourceExhausted, "pending response bytes are full"));
        }
        let headers: HeaderBlock = match HeaderBlock::for_response(&metadata) {
            Ok(headers) => headers,
            Err(failure) => return Err(failure),
        };
        let end: Option<HeaderBlock> = match status {
            None => None,
            Some(status) => match HeaderBlock::for_trailers(&status, &trailers) {
                Ok(block) => Some(block),
                Err(failure) => return Err(failure),
            },
        };
        let ghost fields = headers@;
        let ghost list = reply::payloads(messages@);
        let ghost ends = block_view(end);
        assert(model::end_fields(asked) == Ok::<Option<Seq<FieldView>>, StatusView>(ends));
        let r = self.keep(stream_id, headers, messages, end, added, total);
        proof {
            let place = choose|place: bool|
                outcome(
                    #[trigger] model::kept(before, id, fields, list, ends, added as nat, place),
                    self@,
                    r,
                );
            assert(model::enqueued(before, id, asked, place) == model::kept(
                before,
                id,
                fields,
                list,
                ends,
                added as nat,
                place,
            ));
        }
        r
    }

    fn keep(
        &mut self,
        stream_id: StreamId,
        headers: HeaderBlock,
        messages: Vec<Vec<u8>>,
        trailers: Option<HeaderBlock>,
        added: usize,
        total: usize,
    ) -> (r: Result<(), Status>)
        requires
            old(self).wf(),
            total == old(self)@.pending_len + added,
        ensures
            final(self).wf(),
            exists|place: bool|
                outcome(
                    #[trigger] model::kept(
                        old(self)@,
                        stream_id.value(),
                        headers@,
                        reply::payloads(messages@),
                        block_view(trailers),
                        added as nat,
                        place,
                    ),
                    final(self)@,
                    r,
                ),
    {
        let ghost id = stream_id.value();
        let ghost entries = self.records.entries();
        let ghost before = self@;
        let ghost m = self.messages;
        let ghost c = self.replies;
        let ghost fields = headers@;
        let ghost batch = messages;
        let ghost list = reply::payloads(messages@);
        let ghost ends = block_view(trailers);
        proof {
            let _ = model::kept(before, id, fields, list, ends, added as nat, false);
        }
        let queued: bool = match self.records.get(stream_id.as_u32()) {
            Some(record) => record.queued,
            None => {
                return Err(Status::new(Code::Internal, "reply for unknown gRPC stream"));
            },
        };
        let held: usize = self.queue.len();
        if !queued && self.queue.is_full() {
            return Err(Status::new(Code::ResourceExhausted, "pending response queue is full"));
        }
        let ghost had = entries[id];
        let ghost mut next: CallRecord = had;
        let mut kept: bool = true;
        proof {
            assert(record_ok(had, id, m, c));
            if had.pending is Some {
                assert(reply_chains(entries).contains_key(id));
                chains::lemma_moved_within(
                    c,
                    had.pending->0.batches,
                    c,
                    had.pending->0.batches,
                );
            }
        }
        let empty: bool = messages.len() == 0;
        match self.records.get_mut(stream_id.as_u32()) {
            None => {},
            Some(record) => {
                let fresh: bool = record.pending.is_none();
                if fresh {
                    let mut batches: Chain = self.replies.chain();
                    let ghost none = batches;
                    proof {
                        chains::lemma_one_more(c, reply_chains(entries), id, none);
                        chains::lemma_moved_within(c, none, c, none);
                    }
                    if !empty {
                        match self.replies.push_back(&mut batches, messages) {
                            Ok(_) => {},
                            Err(_) => {
                                kept = false;
                            },
                        }
                    }
                    if kept {
                        let pending = PendingResponse {
                            headers,
                            batches,
                            trailers,
                            headers_sent: false,
                            message_pos: 0,
                            frame_pos: 0,
                            remaining_bytes: added,
                        };
                        proof {
                            lemma_new_batches(none, c, pending, self.replies, batch, empty);
                        }
                        record.pending = Some(pending);
                        record.queued = true;
                    }
                    proof {
                        let with_none = reply_chains(entries).insert(id, none);
                        chains::lemma_replaced(c, with_none, id, self.replies, batches);
                        assert(with_none.insert(id, batches) =~= reply_chains(entries).insert(
                            id,
                            batches,
                        ));
                        assert forall|k: u32| #[trigger]
                            reply_chains(entries).contains_key(k) && k != id implies c.keeps(
                            &self.replies,
                            reply_chains(entries)[k],
                        ) by {
                            assert(with_none.contains_key(k));
                        }
                        if !kept {
                            chains::lemma_fewer(
                                self.replies,
                                reply_chains(entries).insert(id, batches),
                                id,
                            );
                            assert(reply_chains(entries).insert(id, batches).remove(id)
                                =~= reply_chains(entries));
                        }
                    }
                } else if let Some(pending) = &mut record.pending {
                    let ghost first = *pending;
                    if !empty {
                        match self.replies.push_back(&mut pending.batches, messages) {
                            Ok(_) => {},
                            Err(_) => {
                                kept = false;
                            },
                        }
                    }
                    if kept {
                        if trailers.is_some() {
                            pending.trailers = trailers;
                        }
                        pending.remaining_bytes = pending.remaining_bytes.saturating_add(added);
                    }
                    proof {
                        lemma_more_batches(
                            first,
                            c,
                            *pending,
                            self.replies,
                            batch,
                            empty || !kept,
                        );
                        chains::lemma_replaced(
                            c,
                            reply_chains(entries),
                            id,
                            self.replies,
                            pending.batches,
                        );
                    }
                }
                if kept {
                    record.queued = true;
                }
                proof {
                    next = *record;
                }
            },
        }
        proof {
            let all = entries.insert(id, next);
            assert(message_chains(all) =~= message_chains(entries));
            if next.pending is Some {
                assert(reply_chains(all) =~= reply_chains(entries).insert(
                    id,
                    next.pending->0.batches,
                ));
            } else {
                assert(reply_chains(all) =~= reply_chains(entries));
            }
            lemma_changed(entries, id, next, m, c, self.messages, self.replies);
            assert(self.records.entries() =~= all);
        }
        if !kept {
            proof {
                assert(call_view(next, self.messages, self.replies) =~= before.calls[id]);
                assert(self@.calls =~= before.calls);
                let _ = model::kept(before, id, fields, list, ends, added as nat, false);
            }
            return Err(
                Status::new(Code::ResourceExhausted, "pending response messages are full"),
            );
        }
        self.pending_len = total;
        if !queued {
            let _ = self.queue.push_back(stream_id.as_u32());
        }
        proof {
            let want = CallView {
                pending: Some(
                    model::extended(before.calls[id].pending, fields, list, ends, added as nat),
                ),
                queued: true,
                ..before.calls[id]
            };
            assert(call_view(next, self.messages, self.replies) =~= want);
            let _ = model::kept(before, id, fields, list, ends, added as nat, true);
        }
        Ok(())
    }

    /// Sends what the first call in the queue has to send.
    fn turn(&mut self, conn: &mut Conn<ServerRole>)
        requires
            old(self).wf(),
            old(conn).wf(),
            old(self)@.queue.len() > 0,
        ensures
            final(self).wf(),
            final(conn).wf(),
            (final(self)@, final(conn)@) == model::turn(old(self)@, old(conn)@),
    {
        reveal(model::turn);
        let ghost before = self@;
        let ghost start = conn@;
        let ghost entries = self.records.entries();
        let ghost m = self.messages;
        let ghost c = self.replies;
        let id: u32 = match self.queue.pop_front() {
            Some(id) => id,
            None => return,
        };
        assert(self.queue.items() =~= before.queue.drop_first());
        let ghost had = entries[id];
        let ghost mut open: CallRecord = had;
        let mut taken: Option<PendingResponse> = None;
        let mut stream: Option<StreamId> = None;
        match self.records.get_mut(id) {
            None => {},
            Some(record) => {
                record.queued = false;
                stream = Some(record.stream_id);
                std::mem::swap(&mut taken, &mut record.pending);
                proof {
                    open = *record;
                }
            },
        }
        let stream_id: StreamId = match stream {
            Some(stream_id) => stream_id,
            None => {
                assert(self.records.entries() =~= entries);
                return;
            },
        };
        proof {
            assert(record_ok(had, id, m, c));
        }
        let ghost all = entries.insert(id, open);
        let mut pending: PendingResponse = match taken {
            Some(pending) => pending,
            None => {
                proof {
                    lemma_touched(entries, id, open, m, c);
                    assert(self.records.entries() =~= all);
                    assert(call_view(open, m, c) =~= CallView {
                        queued: false,
                        ..before.calls[id]
                    });
                }
                return;
            },
        };
        let ghost p = pending_view(pending, c);
        let ghost chain = pending.batches;
        proof {
            assert(reply_chains(entries).contains_key(id));
            chains::lemma_fewer(c, reply_chains(entries), id);
        }
        let out: Driven = pending.drive(
            &mut self.replies,
            &mut self.pending_len,
            conn,
            stream_id,
        );
        let ghost d = self.replies;
        let ghost left = pending_view(pending, d);
        let ghost driven = model::response_driven(start, id, p, before.pending_len);
        assert(driven == (conn@, left, self.pending_len, out));
        proof {
            let rest = reply_chains(entries).remove(id);
            assert(message_chains(all) =~= message_chains(entries));
            assert(reply_chains(all) =~= rest);
            chains::lemma_replaced(c, reply_chains(entries), id, d, pending.batches);
            chains::lemma_fewer(d, reply_chains(entries).insert(id, pending.batches), id);
            assert(reply_chains(entries).insert(id, pending.batches).remove(id) =~= rest);
            lemma_changed(entries, id, open, m, c, self.messages, d);
            assert(self.records.entries() =~= all);
            assert(call_view(open, self.messages, d) =~= CallView {
                pending: None,
                queued: false,
                ..before.calls[id]
            });
        }
        let held: usize = self.queue.len();
        let again: bool = match out {
            Driven::Blocked => !self.queue.is_full(),
            Driven::Idle => true,
            _ => false,
        };
        if again {
            let ghost mut back: CallRecord = open;
            let blocked: bool = out == Driven::Blocked;
            if blocked {
                let _ = self.queue.push_back(id);
            }
            let ghost kept = pending;
            match self.records.get_mut(id) {
                None => {},
                Some(record) => {
                    record.pending = Some(pending);
                    record.queued = blocked;
                    proof {
                        back = *record;
                    }
                },
            }
            proof {
                let next = all.insert(id, back);
                assert(message_chains(next) =~= message_chains(all));
                assert(reply_chains(next) =~= reply_chains(entries).insert(id, kept.batches));
                lemma_untouched(all, id, self.messages, d);
                lemma_changed(all, id, back, self.messages, d, self.messages, d);
                assert(self.records.entries() =~= next);
                assert(call_view(back, self.messages, d) =~= CallView {
                    pending: Some(left),
                    queued: blocked,
                    ..before.calls[id]
                });
            }
        } else {
            match out {
                Driven::Complete => {},
                _ => {
                    self.pending_len = self.pending_len.saturating_sub(pending.remaining_bytes);
                },
            }
            proof {
                chains::lemma_fewer(d, reply_chains(entries).insert(id, pending.batches), id);
                lemma_untouched(all, id, self.messages, d);
            }
            let ghost gone = pending.batches;
            let _ = self.replies.take_all(&mut pending.batches);
            proof {
                chains::lemma_kept(d, reply_chains(all), gone, self.replies);
                assert(all.insert(id, open) =~= all);
                lemma_changed(all, id, open, self.messages, d, self.messages, self.replies);
                assert(self@.calls =~= call_views(all, self.messages, d)) by {
                    assert(call_views(all, self.messages, d).insert(
                        id,
                        call_view(open, self.messages, self.replies),
                    ) =~= call_views(all, self.messages, d));
                }
            }
            self.remove_empty(stream_id);
        }
    }

    /// Goes once round the calls that have something to send.
    pub fn drive(&mut self, conn: &mut Conn<ServerRole>)
        requires
            old(self).wf(),
            old(conn).wf(),
        ensures
            final(self).wf(),
            final(conn).wf(),
            (final(self)@, final(conn)@) == model::flushed(
                old(self)@,
                old(conn)@,
                old(self)@.queue.len(),
            ),
    {
        let ghost before = self@;
        let ghost c = conn@;
        let len: usize = self.queue.len();
        let mut left: usize = len;
        while left > 0
            invariant
                self.wf(),
                conn.wf(),
                left <= len,
                before == old(self)@,
                c == old(conn)@,
                len == before.queue.len(),
                model::flushed(before, c, len as nat) == model::flushed(
                    self@,
                    conn@,
                    left as nat,
                ),
            decreases left,
        {
            if self.queue.is_empty() {
                return;
            }
            self.turn(conn);
            left = left - 1;
        }
    }
}

/// Whether keeping a piece of an answer came out as stated.
pub open spec fn outcome(
    want: (CallsView, Result<(), StatusView>),
    after: CallsView,
    r: Result<(), Status>,
) -> bool {
    &&& want.0 == after
    &&& match r {
        Ok(_) => want.1 is Ok,
        Err(s) => want.1 == Err::<(), StatusView>(s@),
    }
}

/// An answer with one batch of messages more, or with none more.
proof fn lemma_more_batches(
    p: PendingResponse,
    c: Replies,
    q: PendingResponse,
    d: Replies,
    batch: Vec<Vec<u8>>,
    same: bool,
)
    requires
        pending_ok(p, c),
        d.holds(q.batches),
        q.message_pos == p.message_pos,
        q.frame_pos == p.frame_pos,
        d.items(q.batches) == (if same {
            c.items(p.batches)
        } else {
            c.items(p.batches).push(batch)
        }),
        same || batch@.len() > 0,
    ensures
        pending_ok(q, d),
        pending_view(q, d).messages == (if same {
            pending_view(p, c).messages
        } else {
            pending_view(p, c).messages + reply::payloads(batch@)
        }),
        pending_view(q, d).batches == (if same {
            pending_view(p, c).batches
        } else {
            model::with_batch(pending_view(p, c).batches, batch@.len())
        }),
{
    let items = c.items(p.batches);
    if !same {
        lemma_one_batch_more(items, batch);
        let all = all_messages(items);
        if items.len() > 0 {
            lemma_first_batch(items, p.message_pos as int);
            assert(d.items(q.batches)[0] == items[0]);
        }
        assert((all + reply::payloads(batch@)).skip(p.message_pos as int) =~= all.skip(
            p.message_pos as int,
        ) + reply::payloads(batch@));
        let more = d.items(q.batches);
        assert forall|i: int| 0 <= i < more.len() implies (#[trigger] more[i])@.len() > 0 by {
            if i < items.len() {
                assert(more[i] == items[i]);
            }
        }
        assert(pending_view(q, d).batches =~= model::with_batch(
            pending_view(p, c).batches,
            batch@.len(),
        ));
    }
}

/// An answer with one batch of messages, or with none.
proof fn lemma_new_batches(
    none: Chain,
    c: Replies,
    q: PendingResponse,
    d: Replies,
    batch: Vec<Vec<u8>>,
    empty: bool,
)
    requires
        c.items(none).len() == 0,
        d.holds(q.batches),
        q.message_pos == 0,
        q.frame_pos == 0,
        d.items(q.batches) == (if empty {
            c.items(none)
        } else {
            c.items(none).push(batch)
        }),
        empty <==> batch@.len() == 0,
    ensures
        pending_ok(q, d),
        pending_view(q, d).messages == reply::payloads(batch@),
        pending_view(q, d).batches == model::with_batch(Seq::empty(), batch@.len()),
{
    let items = c.items(none);
    assert(all_messages(items) =~= Seq::<Seq<u8>>::empty());
    if !empty {
        lemma_one_batch_more(items, batch);
    }
    assert(pending_view(q, d).messages =~= reply::payloads(batch@));
    assert(pending_view(q, d).batches =~= model::with_batch(Seq::empty(), batch@.len()));
}

} // verus!
