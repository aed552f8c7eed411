//! The calls of a client, and the messages that wait to be sent for them.

use super::model;
use super::model::{CallView, CallsView, PendingView, ResponseMode};
use crate::bytes::push_bytes;
use crate::chains;
use crate::chains::{Chain, Chains};
use crate::collections::{Permit, Pool, PoolPlan, Queue, Room, Table};
use crate::grpc::frame;
use crate::grpc::frame::{DataChunk, Deframer, FrameError, FrameView, MessageFrame};
use crate::grpc::metadata::Metadata;
use crate::grpc::status::{Code, Status, StatusView};
use crate::h2::conn::model as conn_model;
use crate::h2::conn::model::ConnView;
use crate::h2::conn::Conn;
use crate::h2::error::ConnError;
use crate::h2::frame::ErrorCode;
use crate::h2::role::ClientRole;
use crate::h2::stream::StreamId;
use vstd::prelude::*;

verus! {

/// A message that waits to be sent.
pub struct PendingRequest {
    pub bytes: Vec<u8>,
    pub place: Option<Permit>,
    pub pos: usize,
    pub end_stream: bool,
}

impl PendingRequest {
    pub open spec fn view(&self) -> PendingView {
        PendingView { bytes: self.bytes@, pos: self.pos as nat, end_stream: self.end_stream }
    }

    pub open spec fn ok(&self) -> bool {
        self.pos <= self.bytes@.len()
    }

    /// Whether the message has a place in a pool.
    pub open spec fn placed(&self, pool: int) -> bool {
        self.place matches Some(place) && place.of() == pool
    }

    fn none() -> (r: Self)
        ensures
            r.ok(),
    {
        PendingRequest { bytes: Vec::new(), place: None, pos: 0, end_stream: false }
    }

    /// Sends as much as goes; the result says whether all was sent.
    pub fn drive(&mut self, conn: &mut Conn<ClientRole>, stream_id: StreamId) -> (r: Result<
        bool,
        ConnError,
    >)
        requires
            old(conn).wf(),
            old(self).ok(),
        ensures
            final(conn).wf(),
            final(self).ok(),
            final(self).place == old(self).place,
            (final(conn)@, final(self)@, r) == model::request_driven(
                old(conn)@,
                stream_id.value(),
                old(self)@,
            ),
    {
        let ghost c = conn@;
        let ghost p = self@;
        let len: usize = self.bytes.len();
        while self.pos < len
            invariant
                conn.wf(),
                len == self.bytes@.len(),
                self.pos <= len,
                self.place == old(self).place,
                c == old(conn)@,
                p == old(self)@,
                model::request_driven(c, stream_id.value(), p) == model::request_driven(
                    conn@,
                    stream_id.value(),
                    self@,
                ),
            decreases len - self.pos,
        {
            let rest: &[u8] = vstd::slice::slice_subrange(self.bytes.as_slice(), self.pos, len);
            let n: usize = match conn.send_data(stream_id, rest, self.end_stream) {
                Ok(n) => n,
                Err(failure) => return Err(failure),
            };
            if n == 0 || n > len - self.pos {
                return Ok(false);
            }
            self.pos = self.pos + n;
        }
        Ok(true)
    }
}

pub open spec fn request_views(list: Seq<PendingRequest>) -> Seq<PendingView> {
    list.map_values(|p: PendingRequest| p@)
}

pub open spec fn requests_ok(list: Seq<PendingRequest>, pool: int) -> bool {
    forall|i: int|
        0 <= i < list.len() ==> (#[trigger] list[i]).ok() && list[i].placed(pool)
}

/// Sends as many messages of a call as go; the result says whether all were sent.
fn drive_chain(
    requests: &mut Chains<PendingRequest>,
    places: &mut Pool,
    chain: &mut Chain,
    conn: &mut Conn<ClientRole>,
    stream_id: StreamId,
) -> (r: Result<bool, ConnError>)
    requires
        old(conn).wf(),
        old(requests).holds(*old(chain)),
        requests_ok(old(requests).items(*old(chain)), old(places).id()),
        old(requests).room().held <= old(places).supply().out,
    ensures
        final(conn).wf(),
        final(requests).holds(*final(chain)),
        requests_ok(final(requests).items(*final(chain)), old(places).id()),
        final(requests).items(*final(chain)).len() <= old(requests).items(*old(chain)).len(),
        final(requests).room() == old(requests).room().fewer(
            (old(requests).items(*old(chain)).len() - final(requests).items(
                *final(chain),
            ).len()) as nat,
        ),
        final(places).id() == old(places).id(),
        final(places).supply().limit == old(places).supply().limit,
        old(places).supply().out - final(places).supply().out == old(requests).room().held
            - final(requests).room().held,
        (final(conn)@, request_views(final(requests).items(*final(chain))), r)
            == model::call_driven(
            old(conn)@,
            stream_id.value(),
            request_views(old(requests).items(*old(chain))),
        ),
        chains::moved(*old(requests), *old(chain), *final(requests), *final(chain)),
{
    let ghost c = conn@;
    let ghost list = request_views(requests.items(*chain));
    let ghost start = *requests;
    let ghost first = *chain;
    let ghost id = stream_id.value();
    let ghost pool = places.id();
    proof {
        chains::lemma_moved_within(start, first, start, first);
    }
    while !requests.is_empty(chain)
        invariant
            conn.wf(),
            requests.holds(*chain),
            requests_ok(requests.items(*chain), pool),
            requests.items(*chain).len() <= start.items(first).len(),
            start.items(first).len() - requests.items(*chain).len() <= start.room().held,
            requests.room() == start.room().fewer(
                (start.items(first).len() - requests.items(*chain).len()) as nat,
            ),
            pool == old(places).id(),
            places.id() == pool,
            requests.room().held <= places.supply().out,
            places.supply().limit == old(places).supply().limit,
            old(places).supply().out - places.supply().out == start.room().held - requests.room().held,
            id == stream_id.value(),
            c == old(conn)@,
            start == *old(requests),
            first == *old(chain),
            list == request_views(start.items(first)),
            model::call_driven(c, id, list) == model::call_driven(
                conn@,
                id,
                request_views(requests.items(*chain)),
            ),
            chains::moved(start, first, *requests, *chain),
        decreases requests.items(*chain).len(),
    {
        let ghost at = *requests;
        let ghost items = requests.items(*chain);
        let ghost held = *chain;
        let ghost before = conn@;
        let mut request: PendingRequest = PendingRequest::none();
        requests.swap_front(chain, &mut request);
        let ghost mid = *requests;
        assert(request == items[0]);
        let done = request.drive(conn, stream_id);
        let ghost sent = request;
        requests.swap_front(chain, &mut request);
        proof {
            assert(requests.items(*chain) =~= items.update(0, sent));
            assert(request_views(requests.items(*chain)) =~= request_views(items).update(
                0,
                sent@,
            ));
            chains::lemma_moved_within(at, held, mid, held);
            chains::lemma_moved_within(mid, held, *requests, held);
            chains::lemma_moved_on(at, held, mid, held, *requests, held);
            chains::lemma_moved_on(start, first, at, held, *requests, held);
            assert(request_views(items)[0] == items[0]@);
        }
        match done {
            Err(failure) => return Err(failure),
            Ok(complete) => {
                if !complete {
                    return Ok(false);
                }
            },
        }
        let ghost full = *requests;
        let done = requests.pop_front(chain);
        if let Some(PendingRequest { place: Some(place), bytes: _, pos: _, end_stream: _ }) = done {
            places.give_back(place);
        }
        proof {
            assert(requests.items(*chain) =~= items.drop_first());
            assert(request_views(requests.items(*chain)) =~= request_views(items).drop_first());
            chains::lemma_moved_within(full, held, *requests, *chain);
            chains::lemma_moved_on(start, first, full, held, *requests, *chain);
            assert forall|i: int| 0 <= i < requests.items(*chain).len() implies (
            #[trigger] requests.items(*chain)[i]).ok() && requests.items(*chain)[i].placed(pool) by {
                assert(requests.items(*chain)[i] == items[i + 1]);
            }
        }
    }
    assert(request_views(requests.items(*chain)) =~= Seq::<PendingView>::empty());
    Ok(true)
}

/// Whether a step came out as stated.
pub open spec fn outcome(
    want: (CallsView, Result<(), StatusView>),
    after: CallsView,
    r: Result<(), Status>,
) -> bool {
    &&& want.0 == after
    &&& want.1 == result_view(r)
}

/// Whether sending came out as stated.
pub open spec fn sent(
    want: model::Sent,
    calls: CallsView,
    conn: ConnView,
    r: Result<(), Status>,
) -> bool {
    &&& want.0 == calls
    &&& want.1 == conn
    &&& want.2 == result_view(r)
}

/// A result with what its status says.
pub open spec fn result_view(r: Result<(), Status>) -> Result<(), StatusView> {
    match r {
        Ok(_) => Ok(()),
        Err(status) => Err(status@),
    }
}

/// A call.
pub struct CallRecord {
    pub stream_id: StreamId,
    pub mode: ResponseMode,
    pub metadata: Metadata,
    pub deframer: Deframer,
    pub message: Option<MessageFrame>,
    pub buffered_len: usize,
    pub message_count: usize,
    pub requests: Chain,
    pub request_queued: bool,
    pub send_closed: bool,
}

/// A message that may be missing.
pub open spec fn message_view(m: Option<MessageFrame>) -> Option<FrameView> {
    match m {
        Some(m) => Some(m@),
        None => None,
    }
}

pub open spec fn call_view(r: CallRecord, c: Chains<PendingRequest>) -> CallView {
    CallView {
        mode: r.mode,
        metadata: r.metadata@,
        deframer: r.deframer@,
        message: message_view(r.message),
        buffered_len: r.buffered_len,
        message_count: r.message_count,
        requests: request_views(c.items(r.requests)),
        queued: r.request_queued,
        closed: r.send_closed,
    }
}

pub open spec fn call_views(entries: Map<u32, CallRecord>, c: Chains<PendingRequest>) -> Map<
    u32,
    CallView,
> {
    Map::new(|id: u32| entries.contains_key(id), |id: u32| call_view(entries[id], c))
}

pub open spec fn chains_of(entries: Map<u32, CallRecord>) -> Map<u32, Chain> {
    Map::new(|id: u32| entries.contains_key(id), |id: u32| entries[id].requests)
}

/// Whether the calls and their messages fit together.
pub open spec fn store_ok(
    entries: Map<u32, CallRecord>,
    c: Chains<PendingRequest>,
    pool: int,
) -> bool {
    &&& chains::separate(c, chains_of(entries))
    &&& forall|id: u32| #[trigger]
        entries.contains_key(id) ==> entries[id].stream_id.value() == id && requests_ok(
            c.items(entries[id].requests),
            pool,
        )
}

/// A call has changed, and with it perhaps its messages.
proof fn lemma_changed(
    entries: Map<u32, CallRecord>,
    c: Chains<PendingRequest>,
    id: u32,
    r: CallRecord,
    d: Chains<PendingRequest>,
    pool: int,
)
    requires
        store_ok(entries, c, pool),
        entries.contains_key(id),
        r.stream_id == entries[id].stream_id,
        chains::moved(c, entries[id].requests, d, r.requests),
        d.holds(r.requests),
        requests_ok(d.items(r.requests), pool),
    ensures
        store_ok(entries.insert(id, r), d, pool),
        call_views(entries.insert(id, r), d) == call_views(entries, c).insert(id, call_view(r, d)),
{
    let m = chains_of(entries);
    let next = entries.insert(id, r);
    chains::lemma_replaced(c, m, id, d, r.requests);
    assert(chains_of(next) =~= m.insert(id, r.requests));
    assert forall|k: u32| #[trigger] next.contains_key(k) implies next[k].stream_id.value() == k
        && requests_ok(d.items(next[k].requests), pool) by {
        if k != id {
            assert(entries.contains_key(k));
            assert(m.contains_key(k));
            assert(c.keeps(&d, m[k]));
        }
    }
    assert(call_views(next, d) =~= call_views(entries, c).insert(id, call_view(r, d))) by {
        assert forall|k: u32| next.contains_key(k) && k != id implies call_view(next[k], d)
            == call_view(entries[k], c) by {
            assert(m.contains_key(k));
            assert(c.keeps(&d, m[k]));
        }
    }
}

/// A call has changed, but not its messages.
proof fn lemma_touched(
    entries: Map<u32, CallRecord>,
    c: Chains<PendingRequest>,
    id: u32,
    r: CallRecord,
    pool: int,
)
    requires
        store_ok(entries, c, pool),
        entries.contains_key(id),
        r.stream_id == entries[id].stream_id,
        r.requests == entries[id].requests,
    ensures
        store_ok(entries.insert(id, r), c, pool),
        call_views(entries.insert(id, r), c) == call_views(entries, c).insert(id, call_view(r, c)),
{
    assert(chains_of(entries).contains_key(id));
    chains::lemma_moved_within(c, r.requests, c, r.requests);
    lemma_changed(entries, c, id, r, c, pool);
}

/// The calls of a client, the queue of those that have something to send, and what they have
/// to send.
pub struct CallStore {
    records: Table<CallRecord>,
    pending: Queue<u32>,
    requests: Chains<PendingRequest>,
    places: Pool,
    max_pending_len: usize,
    max_message_len: usize,
}

impl CallStore {
    pub closed spec fn view(&self) -> CallsView {
        CallsView {
            calls: call_views(self.records.entries(), self.requests),
            capacity: self.records.limit(),
            pending: self.pending.items(),
            pending_capacity: self.pending.limit(),
            room: self.requests.room(),
            max_message: self.max_message_len,
            max_pending: self.max_pending_len,
        }
    }

    pub closed spec fn wf(&self) -> bool {
        &&& store_ok(self.records.entries(), self.requests, self.places.id())
        &&& self.places.supply().out == self.requests.room().held
        &&& self.places.supply().limit == self.requests.room().limit
    }

    /// No calls, with room for `streams` of them and for `messages` messages that wait.
    pub fn new(
        streams: usize,
        messages: usize,
        plan: &PoolPlan,
        max_pending_len: usize,
        max_message_len: usize,
    ) -> (r: Self)
        requires
            streams <= u32::MAX,
            messages < u32::MAX,
            messages <= plan.slots(),
        ensures
            r.wf(),
            r@ == (CallsView {
                calls: Map::empty(),
                capacity: streams as nat,
                pending: Seq::empty(),
                pending_capacity: streams as nat,
                room: Room { held: 0, limit: messages as nat, spent: 0 },
                max_message: max_message_len,
                max_pending: max_pending_len,
            }),
    {
        let r = CallStore {
            records: Table::with_capacity(streams),
            pending: Queue::with_capacity(streams),
            requests: Chains::with_capacity(messages),
            places: plan.pool_up_to(messages),
            max_pending_len,
            max_message_len,
        };
        assert(r@.calls =~= Map::<u32, CallView>::empty());
        r
    }

    /// Adds a call; the result says whether there was room.
    pub fn insert(&mut self, stream_id: StreamId, mode: ResponseMode) -> (r: bool)
        requires
            old(self).wf(),
        ensures
            final(self).wf(),
            (final(self)@, r) == model::inserted(old(self)@, stream_id.value(), mode),
    {
        let ghost entries = self.records.entries();
        let ghost before = self@;
        let record = CallRecord {
            stream_id,
            mode,
            metadata: Metadata::new(),
            deframer: Deframer::new(self.max_message_len),
            message: None,
            buffered_len: 0,
            message_count: 0,
            requests: self.requests.chain(),
            request_queued: false,
            send_closed: false,
        };
        let ghost id = stream_id.value();
        proof {
            assert(before.calls.dom() =~= entries.dom());
            if !entries.contains_key(id) {
                chains::lemma_one_more(self.requests, chains_of(entries), id, record.requests);
                assert(chains_of(entries.insert(id, record)) =~= chains_of(entries).insert(
                    id,
                    record.requests,
                ));
                assert(request_views(self.requests.items(record.requests)) =~= Seq::<
                    PendingView,
                >::empty());
                assert(call_views(entries.insert(id, record), self.requests) =~= before.calls.insert(
                    id,
                    model::new_call(mode, before.max_message),
                ));
            }
        }
        match self.records.try_insert(stream_id.as_u32(), record) {
            Ok(_) => true,
            Err(_) => false,
        }
    }

    /// Whether a call is there, and how its answer is handed on.
    pub fn mode(&self, stream_id: StreamId) -> (r: Option<ResponseMode>)
        ensures
            r == (if self@.has(stream_id.value()) {
                Some(self@.calls[stream_id.value()].mode)
            } else {
                None
            }),
    {
        match self.records.get(stream_id.as_u32()) {
            Some(record) => Some(record.mode),
            None => None,
        }
    }

    /// Gives back the places of messages.
    fn give_back_all(&mut self, list: &mut Vec<PendingRequest>)
        requires
            requests_ok(old(list)@, old(self).places.id()),
            old(list)@.len() <= old(self).places.supply().out,
        ensures
            final(self).places.id() == old(self).places.id(),
            final(self).places.supply().limit == old(self).places.supply().limit,
            final(self).places.supply().out + old(list)@.len() == old(self).places.supply().out,
            *final(self) == (CallStore { places: final(self).places, ..*old(self) }),
    {
        while list.len() > 0
            invariant
                requests_ok(list@, self.places.id()),
                list@.len() <= self.places.supply().out,
                self.places.id() == old(self).places.id(),
                self.places.supply().limit == old(self).places.supply().limit,
                self.places.supply().out + old(list)@.len() == old(self).places.supply().out + list@.len(),
                *self == (CallStore { places: self.places, ..*old(self) }),
            decreases list@.len(),
        {
            let ghost before = list@;
            let last = list.pop();
            assert(before.last().placed(self.places.id()));
            if let Some(PendingRequest { place: Some(place), bytes: _, pos: _, end_stream: _ }) =
                last {
                self.places.give_back(place);
            }
            assert forall|i: int| 0 <= i < list@.len() implies (#[trigger] list@[i]).ok()
                && list@[i].placed(self.places.id()) by {
                assert(list@[i] == before[i]);
            }
        }
    }

    /// Takes out a call, and forgets what waited to be sent for it.
    pub fn remove(&mut self, stream_id: StreamId) -> (r: Option<CallRecord>)
        requires
            old(self).wf(),
        ensures
            final(self).wf(),
            final(self)@ == model::removed(old(self)@, stream_id.value()),
            match r {
                Some(record) => old(self)@.has(stream_id.value()) && ({
                    let call = old(self)@.calls[stream_id.value()];
                    record.mode == call.mode && record.metadata@ == call.metadata && message_view(
                        record.message,
                    ) == call.message
                }),
                None => !old(self)@.has(stream_id.value()),
            },
    {
        let ghost id = stream_id.value();
        let ghost before = self@;
        let ghost entries = self.records.entries();
        let ghost start = self.requests;
        match self.records.remove(stream_id.as_u32()) {
            None => {
                assert(self.records.entries() =~= entries);
                None
            },
            Some(mut record) => {
                proof {
                    assert(chains_of(entries).contains_key(id));
                }
                if record.request_queued {
                    self.pending.remove_value(stream_id.as_u32());
                    record.request_queued = false;
                }
                let ghost list = self.requests.items(record.requests);
                let mut taken: Vec<PendingRequest> = self.requests.take_all(&mut record.requests);
                self.give_back_all(&mut taken);
                proof {
                    let m = chains_of(entries);
                    let left = self.records.entries();
                    chains::lemma_without(start, m, id, self.requests);
                    assert(chains_of(left) =~= m.remove(id));
                    assert forall|k: u32| #[trigger] left.contains_key(k) implies
                        left[k].stream_id.value() == k && requests_ok(
                        self.requests.items(left[k].requests),
                        self.places.id(),
                    ) by {
                        assert(entries.contains_key(k));
                        assert(m.contains_key(k));
                        assert(start.keeps(&self.requests, m[k]));
                    }
                    assert forall|k: u32| left.contains_key(k) implies call_view(
                        left[k],
                        self.requests,
                    ) == call_view(entries[k], start) by {
                        assert(m.contains_key(k));
                        assert(start.keeps(&self.requests, m[k]));
                    }
                    assert(self@.calls =~= before.calls.remove(id));
                }
                Some(record)
            },
        }
    }

    /// Keeps a message, of which `consumed` bytes were sent, until the rest can be sent.
    fn enqueue(
        &mut self,
        stream_id: StreamId,
        header: &[u8],
        payload: &[u8],
        consumed: usize,
        end_stream: bool,
    ) -> (r: Result<(), Status>)
        requires
            old(self).wf(),
            consumed <= header@.len() + payload@.len(),
            consumed == 0 || header@.len() + payload@.len() <= usize::MAX,
        ensures
            final(self).wf(),
            exists|place: bool|
                outcome(
                    #[trigger] model::enqueued(
                        old(self)@,
                        stream_id.value(),
                        (header@ + payload@).skip(consumed as int),
                        end_stream,
                        place,
                    ),
                    final(self)@,
                    r,
                ),
    {
        let ghost id = stream_id.value();
        let ghost before = self@;
        let ghost entries = self.records.entries();
        let ghost start = self.requests;
        let ghost rest = (header@ + payload@).skip(consumed as int);
        proof {
            let _ = model::enqueued(before, id, rest, end_stream, false);
        }
        let total: usize = match header.len().checked_add(payload.len()) {
            Some(total) => total,
            None => {
                return Err(Status::new(Code::ResourceExhausted, "pending request is too large"));
            },
        };
        let additional: usize = total - consumed;
        if additional > self.max_pending_len {
            return Err(Status::new(Code::ResourceExhausted, "pending request is too large"));
        }
        let queued: bool = match self.records.get(stream_id.as_u32()) {
            Some(record) => record.request_queued,
            None => {
                return Err(Status::new(Code::Internal, "request for unknown gRPC stream"));
            },
        };
        let held: usize = self.pending.len();
        if !queued && self.pending.is_full() {
            return Err(Status::new(Code::ResourceExhausted, "pending request queue is full"));
        }
        let place: Permit = match self.places.try_acquire() {
            Some(place) => place,
            None => {
                return Err(
                    Status::new(Code::ResourceExhausted, "pending request messages are full"),
                );
            },
        };
        let mut bytes: Vec<u8> = Vec::with_capacity(additional);
        if consumed < header.len() {
            push_bytes(
                &mut bytes,
                vstd::slice::slice_subrange(header, consumed, header.len()),
            );
            push_bytes(&mut bytes, payload);
        } else {
            push_bytes(
                &mut bytes,
                vstd::slice::slice_subrange(payload, consumed - header.len(), payload.len()),
            );
        }
        assert(bytes@ =~= rest);
        let request = PendingRequest { bytes, place: Some(place), pos: 0, end_stream };
        let ghost view = request@;
        let ghost mut next: CallRecord = entries[id];
        proof {
            assert(chains_of(entries).contains_key(id));
        }
        let ghost pool = self.places.id();
        let mut back: Option<PendingRequest> = None;
        let kept: bool = match self.records.get_mut(stream_id.as_u32()) {
            None => false,
            Some(record) => {
                let ghost list = self.requests.items(record.requests);
                let pushed = self.requests.push_back(&mut record.requests, request);
                match pushed {
                    Err(request) => {
                        back = Some(request);
                        proof {
                            next = *record;
                            assert(next == entries[id]);
                        }
                        false
                    },
                    Ok(_) => {
                        record.request_queued = true;
                        proof {
                            next = *record;
                            let after = self.requests.items(next.requests);
                            assert(request_views(after) =~= request_views(list).push(view));
                            assert forall|i: int| 0 <= i < after.len() implies (
                            #[trigger] after[i]).ok() && after[i].placed(pool) by {
                                if i < list.len() {
                                    assert(after[i] == list[i]);
                                }
                            }
                        }
                        true
                    },
                }
            },
        };
        proof {
            lemma_changed(entries, start, id, next, self.requests, self.places.id());
            assert(self.records.entries() =~= entries.insert(id, next));
        }
        if !kept {
            if let Some(
                PendingRequest { place: Some(place), bytes: _, pos: _, end_stream: _ },
            ) = back {
                self.places.give_back(place);
            }
            proof {
                assert(call_view(next, self.requests) =~= before.calls[id]);
                assert(self@.calls =~= before.calls);
                let _ = model::enqueued(before, id, rest, end_stream, false);
            }
            return Err(Status::new(Code::ResourceExhausted, "pending request messages are full"));
        }
        if !queued {
            let _ = self.pending.push_back(stream_id.as_u32());
        }
        proof {
            assert(outcome(
                model::enqueued(before, id, rest, end_stream, true),
                self@,
                Ok::<(), Status>(()),
            ));
        }
        Ok(())
    }

    /// Sends what the first call in the queue has to send.
    fn turn(&mut self, h2: &mut Conn<ClientRole>)
        requires
            old(self).wf(),
            old(h2).wf(),
            old(self)@.pending.len() > 0,
        ensures
            final(self).wf(),
            final(h2).wf(),
            (final(self)@, final(h2)@) == model::turn(old(self)@, old(h2)@),
    {
        let ghost before = self@;
        let ghost c = h2@;
        let ghost entries = self.records.entries();
        let ghost start = self.requests;
        let id: u32 = match self.pending.pop_front() {
            Some(id) => id,
            None => return,
        };
        assert(self.pending.items() =~= before.pending.drop_first());
        let ghost mut next: CallRecord = entries[id];
        let ghost mut found: bool = false;
        let result: Option<(StreamId, Result<bool, ConnError>)> = match self.records.get_mut(id) {
            None => None,
            Some(record) => {
                proof {
                    assert(chains_of(entries).contains_key(id));
                }
                record.request_queued = false;
                let stream_id: StreamId = record.stream_id;
                let done = drive_chain(
                    &mut self.requests,
                    &mut self.places,
                    &mut record.requests,
                    h2,
                    stream_id,
                );
                proof {
                    next = *record;
                    found = true;
                }
                Some((stream_id, done))
            },
        };
        match result {
            None => {
                assert(self.records.entries() =~= entries);
            },
            Some((stream_id, done)) => {
                proof {
                    lemma_changed(entries, start, id, next, self.requests, self.places.id());
                    assert(self.records.entries() =~= entries.insert(id, next));
                }
                let ghost after = self@;
                let again: bool = match done {
                    Ok(complete) => {
                        if complete {
                            return;
                        }
                        !self.pending.is_full()
                    },
                    Err(_) => false,
                };
                let held: usize = self.pending.len();
                if again {
                    let ghost entries = self.records.entries();
                    let ghost mut marked: CallRecord = next;
                    let _ = self.pending.push_back(id);
                    if let Some(record) = self.records.get_mut(id) {
                        record.request_queued = true;
                        proof {
                            marked = *record;
                        }
                    }
                    proof {
                        lemma_touched(entries, self.requests, id, marked, self.places.id());
                        assert(self.records.entries() =~= entries.insert(id, marked));
                        assert(self@.calls =~= after.calls.insert(
                            id,
                            CallView { queued: true, ..after.calls[id] },
                        ));
                    }
                } else {
                    let _ = self.remove(stream_id);
                }
            },
        }
    }

    /// Goes once round the calls that have something to send.
    pub fn drive(&mut self, h2: &mut Conn<ClientRole>)
        requires
            old(self).wf(),
            old(h2).wf(),
        ensures
            final(self).wf(),
            final(h2).wf(),
            (final(self)@, final(h2)@) == model::flushed(
                old(self)@,
                old(h2)@,
                old(self)@.pending.len(),
            ),
    {
        let ghost before = self@;
        let ghost c = h2@;
        let len: usize = self.pending.len();
        let mut left: usize = len;
        while left > 0
            invariant
                self.wf(),
                h2.wf(),
                left <= len,
                before == old(self)@,
                c == old(h2)@,
                len == before.pending.len(),
                model::flushed(before, c, len as nat) == model::flushed(self@, h2@, left as nat),
            decreases left,
        {
            if self.pending.is_empty() {
                return;
            }
            self.turn(h2);
            left = left - 1;
        }
    }

    /// No more is to be sent for a call.
    fn mark_closed(&mut self, stream_id: StreamId)
        requires
            old(self).wf(),
        ensures
            final(self).wf(),
            final(self)@ == model::closed(old(self)@, stream_id.value()),
    {
        let ghost before = self@;
        let ghost id = stream_id.value();
        let ghost entries = self.records.entries();
        let ghost mut next: CallRecord = entries[id];
        match self.records.get_mut(stream_id.as_u32()) {
            None => {},
            Some(record) => {
                record.send_closed = true;
                proof {
                    next = *record;
                }
            },
        }
        proof {
            if entries.contains_key(id) {
                lemma_touched(entries, self.requests, id, next, self.places.id());
                assert(self.records.entries() =~= entries.insert(id, next));
                assert(self@.calls =~= before.calls.insert(
                    id,
                    CallView { closed: true, ..before.calls[id] },
                ));
            } else {
                assert(self.records.entries() =~= entries);
            }
        }
    }

    /// Sends a message; what does not go out at once waits.
    pub fn send_message(
        &mut self,
        h2: &mut Conn<ClientRole>,
        stream_id: StreamId,
        payload: &[u8],
        end_stream: bool,
    ) -> (r: Result<(), Status>)
        requires
            old(self).wf(),
            old(h2).wf(),
        ensures
            final(self).wf(),
            final(h2).wf(),
            exists|place: bool|
                sent(
                    #[trigger] model::message_sent(
                        old(self)@,
                        old(h2)@,
                        stream_id.value(),
                        payload@,
                        end_stream,
                        place,
                    ),
                    final(self)@,
                    final(h2)@,
                    r,
                ),
    {
        let ghost before = self@;
        let ghost c = h2@;
        let ghost id = stream_id.value();
        let ghost bytes = frame::framed(FrameView { compressed: false, payload: payload@ });
        proof {
            let _ = model::message_sent(before, c, id, payload@, end_stream, false);
        }
        if payload.len() > self.max_message_len {
            return Err(Status::new(Code::ResourceExhausted, "gRPC message is too large"));
        }
        let header: Vec<u8> = match MessageFrame::header(false, payload.len()) {
            Ok(header) => header,
            Err(error) => return Err(Status::from_frame_err(error)),
        };
        assert(bytes =~= header@ + payload@);
        let (closed, waiting): (bool, bool) = match self.records.get(stream_id.as_u32()) {
            None => {
                return Err(Status::new(Code::Internal, "request for unknown gRPC stream"));
            },
            Some(record) => {
                proof {
                    assert(chains_of(self.records.entries()).contains_key(id));
                }
                (record.send_closed, !self.requests.is_empty(&record.requests))
            },
        };
        if closed {
            return Err(Status::new(Code::Internal, "request stream is closed"));
        }
        if waiting {
            let kept = self.enqueue(stream_id, header.as_slice(), payload, 0, end_stream);
            let ghost place = choose|place: bool|
                outcome(
                    #[trigger] model::enqueued(before, id, bytes.skip(0), end_stream, place),
                    self@,
                    kept,
                );
            assert(bytes.skip(0) =~= bytes);
            proof {
                let _ = model::message_sent(before, c, id, payload@, end_stream, place);
            }
            match kept {
                Ok(_) => {},
                Err(status) => return Err(status),
            }
            if end_stream {
                self.mark_closed(stream_id);
            }
            self.drive(h2);
            return Ok(());
        }
        let r = self.send_first(h2, stream_id, header.as_slice(), payload, end_stream);
        proof {
            let place = choose|place: bool|
                sent(
                    #[trigger] model::first_sent(before, c, id, bytes, end_stream, place),
                    self@,
                    h2@,
                    r,
                );
            let _ = model::message_sent(before, c, id, payload@, end_stream, place);
        }
        r
    }

    /// Sends a message before which none waits.
    fn send_first(
        &mut self,
        h2: &mut Conn<ClientRole>,
        stream_id: StreamId,
        header: &[u8],
        payload: &[u8],
        end_stream: bool,
    ) -> (r: Result<(), Status>)
        requires
            old(self).wf(),
            old(h2).wf(),
            header@.len() == frame::PREFIX_LEN,
        ensures
            final(self).wf(),
            final(h2).wf(),
            exists|place: bool|
                sent(
                    #[trigger] model::first_sent(
                        old(self)@,
                        old(h2)@,
                        stream_id.value(),
                        header@ + payload@,
                        end_stream,
                        place,
                    ),
                    final(self)@,
                    final(h2)@,
                    r,
                ),
    {
        let ghost before = self@;
        let ghost c = h2@;
        let ghost id = stream_id.value();
        let ghost bytes = header@ + payload@;
        proof {
            let _ = model::first_sent(before, c, id, bytes, end_stream, false);
            conn_model::lemma_sending_keeps_ingress(c, id);
        }
        let mut consumed: usize = match h2.send_data_parts(stream_id, header, payload, end_stream) {
            Ok(n) => n,
            Err(failure) => {
                let _ = self.remove(stream_id);
                return Err(Status::from_conn_err(failure));
            },
        };
        let ghost started = h2@;
        let ghost first = consumed as nat;
        let total: usize = header.len() + payload.len();
        let mut going: bool = true;
        while going && consumed < total && consumed >= header.len()
            invariant
                self.wf(),
                h2.wf(),
                self@ == before,
                before == old(self)@,
                c == old(h2)@,
                id == stream_id.value(),
                bytes == header@ + payload@,
                header@.len() == frame::PREFIX_LEN,
                total == bytes.len(),
                consumed <= total,
                bytes.len() <= usize::MAX,
                conn_model::data_sent(c, id, bytes, end_stream) == (
                    started,
                    Ok::<usize, ConnError>(first as usize),
                ),
                first <= usize::MAX,
                going ==> model::continued(before, started, id, bytes, first, end_stream)
                    == model::continued(before, h2@, id, bytes, consumed as nat, end_stream),
                !going ==> model::continued(before, started, id, bytes, first, end_stream) == (
                    h2@,
                    Ok::<nat, ConnError>(consumed as nat),
                ),
            decreases (total - consumed) + (if going {
                1int
            } else {
                0
            }),
        {
            let at: usize = consumed - header.len();
            let rest: &[u8] = vstd::slice::slice_subrange(payload, at, payload.len());
            assert(rest@ =~= bytes.skip(consumed as int));
            proof {
                conn_model::lemma_sending_keeps_ingress(h2@, id);
            }
            let n: usize = match h2.send_data(stream_id, rest, end_stream) {
                Ok(n) => n,
                Err(failure) => {
                    let _ = self.remove(stream_id);
                    proof {
                        let _ = model::first_sent(before, c, id, bytes, end_stream, false);
                    }
                    return Err(Status::from_conn_err(failure));
                },
            };
            if n == 0 {
                going = false;
            } else {
                consumed = consumed + n;
            }
        }
        assert(model::continued(before, started, id, bytes, first, end_stream) == (
            h2@,
            Ok::<nat, ConnError>(consumed as nat),
        ));
        let ghost mut place: bool = false;
        if consumed != total {
            let kept = self.enqueue(stream_id, header, payload, consumed, end_stream);
            proof {
                place = choose|place: bool|
                    outcome(
                        #[trigger] model::enqueued(
                            before,
                            id,
                            bytes.skip(consumed as int),
                            end_stream,
                            place,
                        ),
                        self@,
                        kept,
                    );
                let _ = model::first_sent(before, c, id, bytes, end_stream, place);
            }
            if let Err(status) = kept {
                let _ = h2.reset_stream(stream_id, ErrorCode::Cancel);
                let _ = self.remove(stream_id);
                return Err(status);
            }
        }
        if end_stream {
            self.mark_closed(stream_id);
        }
        proof {
            let _ = model::first_sent(before, c, id, bytes, end_stream, place);
        }
        Ok(())
    }

    /// Says that no more messages follow.
    pub fn finish_send(&mut self, h2: &mut Conn<ClientRole>, stream_id: StreamId) -> (r: Result<
        (),
        Status,
    >)
        requires
            old(self).wf(),
            old(h2).wf(),
        ensures
            final(self).wf(),
            final(h2).wf(),
            sent(
                model::finished(old(self)@, old(h2)@, stream_id.value()),
                final(self)@,
                final(h2)@,
                r,
            ),
    {
        let ghost before = self@;
        let ghost id = stream_id.value();
        match self.records.get(stream_id.as_u32()) {
            None => {
                return Err(Status::new(Code::Internal, "request for unknown gRPC stream"));
            },
            Some(record) => {
                if record.send_closed {
                    return Ok(());
                }
            },
        }
        self.mark_closed(stream_id);
        let waiting: bool = self.end_last(stream_id);
        self.drive(h2);
        if waiting {
            return Ok(());
        }
        let nothing: Vec<u8> = Vec::new();
        assert(nothing@ =~= Seq::<u8>::empty());
        match h2.send_data(stream_id, nothing.as_slice(), true) {
            Ok(_) => Ok(()),
            Err(failure) => Err(Status::from_conn_err(failure)),
        }
    }

    /// Lets the last message that waits end the request, if there is one.
    fn end_last(&mut self, stream_id: StreamId) -> (r: bool)
        requires
            old(self).wf(),
            old(self)@.has(stream_id.value()),
        ensures
            final(self).wf(),
            ({
                let call = old(self)@.calls[stream_id.value()];
                &&& r == (call.requests.len() > 0)
                &&& final(self)@ == (if r {
                    old(self)@.with(
                        stream_id.value(),
                        CallView {
                            requests: call.requests.drop_last().push(
                                PendingView { end_stream: true, ..call.requests.last() },
                            ),
                            ..call
                        },
                    )
                } else {
                    old(self)@
                })
            }),
    {
        let ghost before = self@;
        let ghost id = stream_id.value();
        let ghost entries = self.records.entries();
        let ghost start = self.requests;
        proof {
            assert(chains_of(entries).contains_key(id));
        }
        match self.records.get(stream_id.as_u32()) {
            None => false,
            Some(record) => {
                let ghost chain = record.requests;
                let ghost items = self.requests.items(chain);
                if self.requests.is_empty(&record.requests) {
                    return false;
                }
                let mut request: PendingRequest = PendingRequest::none();
                self.requests.swap_back(&record.requests, &mut request);
                let ghost mid = self.requests;
                request.end_stream = true;
                let ghost last = request;
                self.requests.swap_back(&record.requests, &mut request);
                proof {
                    let after = self.requests.items(chain);
                    assert(after =~= items.drop_last().push(last));
                    assert(request_views(after) =~= request_views(items).drop_last().push(last@));
                    chains::lemma_moved_within(start, chain, mid, chain);
                    chains::lemma_moved_within(mid, chain, self.requests, chain);
                    chains::lemma_moved_on(start, chain, mid, chain, self.requests, chain);
                    assert forall|i: int| 0 <= i < after.len() implies (#[trigger] after[i]).ok()
                        && after[i].placed(self.places.id()) by {
                        if i < items.len() - 1 {
                            assert(after[i] == items[i]);
                        } else {
                            assert(items[items.len() - 1].ok());
                        }
                    }
                    lemma_changed(entries, start, id, entries[id], self.requests, self.places.id());
                    assert(entries.insert(id, entries[id]) =~= entries);
                    assert(self@.calls =~= before.calls.insert(
                        id,
                        call_view(entries[id], self.requests),
                    ));
                }
                true
            },
        }
    }

    /// Gives a call up.
    pub fn abort(&mut self, h2: &mut Conn<ClientRole>, stream_id: StreamId)
        requires
            old(self).wf(),
            old(h2).wf(),
        ensures
            final(self).wf(),
            final(h2).wf(),
            (final(self)@, final(h2)@) == model::aborted(
                old(self)@,
                old(h2)@,
                stream_id.value(),
            ),
    {
        if self.records.get(stream_id.as_u32()).is_some() {
            let _ = h2.reset_stream(stream_id, ErrorCode::Cancel);
            let _ = self.remove(stream_id);
        }
    }

    /// The fields that came with the start of an answer.
    pub fn set_metadata(&mut self, stream_id: StreamId, metadata: Metadata)
        requires
            old(self).wf(),
            old(self)@.has(stream_id.value()),
        ensures
            final(self).wf(),
            final(self)@ == old(self)@.with(
                stream_id.value(),
                CallView { metadata: metadata@, ..old(self)@.calls[stream_id.value()] },
            ),
    {
        let ghost before = self@;
        let ghost id = stream_id.value();
        let ghost entries = self.records.entries();
        let ghost mut next: CallRecord = entries[id];
        if let Some(record) = self.records.get_mut(stream_id.as_u32()) {
            record.metadata = metadata;
            proof {
                next = *record;
            }
        }
        proof {
            lemma_touched(entries, self.requests, id, next, self.places.id());
            assert(self.records.entries() =~= entries.insert(id, next));
            assert(self@.calls =~= before.calls.insert(
                id,
                CallView { metadata: metadata@, ..before.calls[id] },
            ));
        }
    }

    /// Whether a place in the pool is needed to go on with the bytes of an answer.
    pub fn needs_place(&self, stream_id: StreamId, input: &DataChunk) -> (r: bool)
        requires
            self@.has(stream_id.value()),
        ensures
            r == frame::needs_place(self@.calls[stream_id.value()].deframer, input@),
            self@.calls[stream_id.value()].deframer.inv(),
    {
        match self.records.get(stream_id.as_u32()) {
            None => false,
            Some(record) => {
                record.deframer.check();
                record.deframer.needs_place(input)
            },
        }
    }

    /// The next message in the bytes of an answer.
    pub fn next_message(
        &mut self,
        stream_id: StreamId,
        input: &mut DataChunk,
        place: Option<Permit>,
    ) -> (r: Result<Option<MessageFrame>, FrameError>)
        requires
            old(self).wf(),
            old(self)@.has(stream_id.value()),
        ensures
            final(self).wf(),
            ({
                let call = old(self)@.calls[stream_id.value()];
                let want = frame::deframed(call.deframer, old(input)@, place is Some);
                &&& frame::next_is(want, want.0, final(input)@, r)
                &&& final(self)@ == old(self)@.with(
                    stream_id.value(),
                    CallView { deframer: want.0, ..call },
                )
            }),
    {
        let ghost before = self@;
        let ghost id = stream_id.value();
        let ghost entries = self.records.entries();
        let ghost mut next: CallRecord = entries[id];
        let r = match self.records.get_mut(stream_id.as_u32()) {
            None => Ok(None),
            Some(record) => {
                let r = record.deframer.next_with(input, place);
                proof {
                    next = *record;
                }
                r
            },
        };
        proof {
            lemma_touched(entries, self.requests, id, next, self.places.id());
            assert(self.records.entries() =~= entries.insert(id, next));
            assert(self@.calls =~= before.calls.insert(
                id,
                CallView { deframer: next.deframer@, ..before.calls[id] },
            ));
        }
        r
    }

    /// Counts a message of an answer; the result says whether it is within the limits.
    pub fn count_message(
        &mut self,
        stream_id: StreamId,
        len: usize,
        max_len: usize,
        max_msgs: usize,
    ) -> (r: bool)
        requires
            old(self).wf(),
            old(self)@.has(stream_id.value()),
        ensures
            final(self).wf(),
            ({
                let call = old(self)@.calls[stream_id.value()];
                let total = model::capped(call.buffered_len, len as nat);
                &&& r == (total <= max_len && call.message_count < max_msgs)
                &&& final(self)@ == old(self)@.with(
                    stream_id.value(),
                    CallView {
                        buffered_len: total,
                        message_count: model::capped(call.message_count, 1),
                        ..call
                    },
                )
            }),
    {
        let ghost before = self@;
        let ghost id = stream_id.value();
        let ghost entries = self.records.entries();
        let ghost mut next: CallRecord = entries[id];
        let r: bool = match self.records.get_mut(stream_id.as_u32()) {
            None => false,
            Some(record) => {
                record.buffered_len = record.buffered_len.saturating_add(len);
                let fits: bool = record.buffered_len <= max_len && record.message_count < max_msgs;
                record.message_count = record.message_count.saturating_add(1);
                proof {
                    next = *record;
                }
                fits
            },
        };
        proof {
            lemma_touched(entries, self.requests, id, next, self.places.id());
            assert(self.records.entries() =~= entries.insert(id, next));
            assert(self@.calls =~= before.calls.insert(
                id,
                CallView {
                    buffered_len: next.buffered_len,
                    message_count: next.message_count,
                    ..before.calls[id]
                },
            ));
        }
        r
    }

    /// Keeps the message of an answer; the result says whether there was none before.
    pub fn put_message(&mut self, stream_id: StreamId, message: MessageFrame) -> (r: bool)
        requires
            old(self).wf(),
            old(self)@.has(stream_id.value()),
        ensures
            final(self).wf(),
            r == (old(self)@.calls[stream_id.value()].message is None),
            final(self)@ == old(self)@.with(
                stream_id.value(),
                CallView { message: Some(message@), ..old(self)@.calls[stream_id.value()] },
            ),
    {
        let ghost before = self@;
        let ghost id = stream_id.value();
        let ghost entries = self.records.entries();
        let ghost mut next: CallRecord = entries[id];
        let ghost view = message@;
        let r: bool = match self.records.get_mut(stream_id.as_u32()) {
            None => false,
            Some(record) => {
                let first: bool = record.message.is_none();
                record.message = Some(message);
                proof {
                    next = *record;
                }
                first
            },
        };
        proof {
            lemma_touched(entries, self.requests, id, next, self.places.id());
            assert(self.records.entries() =~= entries.insert(id, next));
            assert(self@.calls =~= before.calls.insert(
                id,
                CallView { message: Some(view), ..before.calls[id] },
            ));
        }
        r
    }
}

} // verus!
