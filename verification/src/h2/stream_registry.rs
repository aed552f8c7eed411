//! The streams of a connection.

use crate::collections::{Queue, Table};
use crate::h2::flow;
use crate::h2::flow::Window;
use crate::h2::role::Role;
use crate::h2::stream;
use crate::h2::stream::{IdGen, Stream, StreamId};
use std::marker::PhantomData;
use vstd::prelude::*;

verus! {

/// How many resets are remembered.
pub const RESET_RING_CAP: usize = 256;

#[derive(Copy, Clone, Debug, PartialEq, Eq, Structural)]
pub enum StreamClass {
    Connection,
    Active,
    ClosedRst,
    ClosedEnd,
    Idle,
}

/// A stream with its windows and the bytes that were received and not yet announced.
#[derive(Copy, Clone, Debug)]
pub struct StreamRecord {
    pub stream: Stream,
    pub send_window: Window,
    pub recv_window: Window,
    pub pending_release: u32,
}

/// Whether the peer of this end opens the stream.
pub open spec fn peer_initiated(server: bool, id: u32) -> bool {
    if server {
        stream::client_number(id)
    } else {
        stream::server_number(id)
    }
}

/// The streams: the active ones by number, how many there may be, the number of the next
/// stream of this end, the last one of the peer, and those that were reset lately.
#[verifier::ext_equal]
pub struct RegistryView {
    pub records: Map<u32, StreamRecord>,
    pub capacity: nat,
    pub next_local: Option<u32>,
    pub last_peer: u32,
    pub reset: Seq<u32>,
}

/// The active streams that the peer opened, or that this end opened.
pub open spec fn opened_by(records: Map<u32, StreamRecord>, server: bool, peer: bool) -> Set<u32> {
    records.dom().filter(|id: u32| peer_initiated(server, id) == peer)
}

/// What a stream is to this end: one that is active, one that was open before and ended, or
/// one that has not been opened.
pub open spec fn class_of(v: RegistryView, server: bool, id: u32) -> StreamClass {
    if id == 0 {
        StreamClass::Connection
    } else if v.records.contains_key(id) {
        StreamClass::Active
    } else if (if peer_initiated(server, id) {
        id <= v.last_peer
    } else {
        v.next_local matches Some(next) ==> id < next
    }) {
        if v.reset.contains(id) {
            StreamClass::ClosedRst
        } else {
            StreamClass::ClosedEnd
        }
    } else {
        StreamClass::Idle
    }
}

/// Whether another stream of the peer finds room.
pub open spec fn accepts_peer(v: RegistryView, server: bool, limit: nat) -> bool {
    opened_by(v.records, server, true).len() < limit && v.records.len() < v.capacity
}

/// Whether another stream of this end finds room.
pub open spec fn opens_local(v: RegistryView, server: bool, limit: nat) -> bool {
    opened_by(v.records, server, false).len() < limit && v.records.len() < v.capacity
}

/// A new stream with the given windows.
pub open spec fn new_record(s: Stream, send_window: u32, recv_window: u32) -> StreamRecord {
    StreamRecord {
        stream: s,
        send_window: Window { value: send_window as i32 },
        recv_window: Window { value: recv_window as i32 },
        pending_release: 0,
    }
}

/// The registry with a stream more.
pub open spec fn recorded(v: RegistryView, record: StreamRecord) -> RegistryView {
    RegistryView { records: v.records.insert(record.stream.id.value(), record), ..v }
}

/// The registry without a stream.
pub open spec fn evicted(v: RegistryView, id: u32) -> RegistryView {
    RegistryView { records: v.records.remove(id), ..v }
}

/// The registry with a reset more; the oldest one is forgotten when there are too many.
pub open spec fn reset_marked(v: RegistryView, id: u32) -> RegistryView {
    if v.reset.contains(id) {
        v
    } else if v.reset.len() == RESET_RING_CAP {
        RegistryView { reset: v.reset.subrange(1, v.reset.len() as int).push(id), ..v }
    } else {
        RegistryView { reset: v.reset.push(id), ..v }
    }
}

/// Whether all send windows can move by `delta`.
pub open spec fn windows_move(records: Map<u32, StreamRecord>, delta: int) -> bool {
    forall|id: u32| #[trigger]
        records.contains_key(id) ==> i32::MIN <= records[id].send_window.value + delta
            <= Window::MAX
}

/// All send windows moved by `delta`.
pub open spec fn windows_moved(records: Map<u32, StreamRecord>, delta: int) -> Map<
    u32,
    StreamRecord,
> {
    records.map_values(
        |r: StreamRecord|
            StreamRecord {
                send_window: Window { value: (r.send_window.value + delta) as i32 },
                ..r
            },
    )
}

/// Whether `order` names each stream once.
pub open spec fn walks(records: Map<u32, StreamRecord>, order: Seq<u32>) -> bool {
    &&& order.no_duplicates()
    &&& forall|id: u32| order.contains(id) <==> #[trigger] records.contains_key(id)
}

/// The order in which the streams are walked: `order`, where it names each stream once, or
/// else one that does.
pub open spec fn walk(records: Map<u32, StreamRecord>, order: Seq<u32>) -> Seq<u32> {
    if walks(records, order) {
        order
    } else {
        choose|other: Seq<u32>| walks(records, other)
    }
}

/// The send windows moved by `delta` one after the other, up to the first that cannot move;
/// and whether all of them did.
pub open spec fn moved_along(records: Map<u32, StreamRecord>, order: Seq<u32>, delta: int) -> (
    Map<u32, StreamRecord>,
    bool,
)
    decreases order.len(),
{
    if order.len() == 0 {
        (records, true)
    } else {
        let (before, all) = moved_along(records, order.drop_last(), delta);
        let record = before[order.last()];
        let value = record.send_window.value + delta;
        if all && i32::MIN <= value <= Window::MAX {
            let send_window = Window { value: value as i32 };
            (before.insert(order.last(), StreamRecord { send_window, ..record }), true)
        } else {
            (before, false)
        }
    }
}

proof fn lemma_move_stops(records: Map<u32, StreamRecord>, order: Seq<u32>, n: int, delta: int)
    requires
        0 <= n <= order.len(),
        !moved_along(records, order.subrange(0, n), delta).1,
    ensures
        moved_along(records, order, delta) == moved_along(records, order.subrange(0, n), delta),
    decreases order.len() - n,
{
    if n == order.len() {
        assert(order.subrange(0, n) =~= order);
    } else {
        assert(order.subrange(0, n + 1).drop_last() =~= order.subrange(0, n));
        lemma_move_stops(records, order, n + 1, delta);
    }
}

/// Each active stream stands under its own number, and no limit is exceeded.
pub open spec fn registry_inv(v: RegistryView) -> bool {
    &&& v.records.dom().finite()
    &&& v.records.len() <= v.capacity
    &&& v.reset.len() <= RESET_RING_CAP
    &&& v.last_peer <= StreamId::MAX
    &&& forall|id: u32| #[trigger]
        v.records.contains_key(id) ==> v.records[id].stream.id.value() == id && id != 0
}

proof fn lemma_opened_insert(
    records: Map<u32, StreamRecord>,
    server: bool,
    id: u32,
    record: StreamRecord,
)
    requires
        records.dom().finite(),
    ensures
        records.insert(id, record).dom().finite(),
        opened_by(records, server, true).finite(),
        opened_by(records, server, false).finite(),
        opened_by(records, server, true).len() <= records.len(),
        opened_by(records, server, false).len() <= records.len(),
        !records.contains_key(id) ==> opened_by(
            records.insert(id, record),
            server,
            peer_initiated(server, id),
        ).len() == opened_by(records, server, peer_initiated(server, id)).len() + 1,
        !records.contains_key(id) ==> opened_by(
            records.insert(id, record),
            server,
            !peer_initiated(server, id),
        ).len() == opened_by(records, server, !peer_initiated(server, id)).len(),
        records.contains_key(id) ==> records.insert(id, record).dom() == records.dom(),
{
    let next = records.insert(id, record);
    let mine = peer_initiated(server, id);
    vstd::set_lib::lemma_len_subset(opened_by(records, server, true), records.dom());
    vstd::set_lib::lemma_len_subset(opened_by(records, server, false), records.dom());
    assert(opened_by(next, server, mine) =~= opened_by(records, server, mine).insert(id));
    if !records.contains_key(id) {
        assert(opened_by(next, server, !mine) =~= opened_by(records, server, !mine));
    } else {
        assert(next.dom() =~= records.dom());
    }
}

proof fn lemma_opened_remove(records: Map<u32, StreamRecord>, server: bool, id: u32)
    requires
        records.dom().finite(),
        records.contains_key(id),
    ensures
        records.remove(id).dom().finite(),
        opened_by(records.remove(id), server, peer_initiated(server, id)).len() + 1 == opened_by(
            records,
            server,
            peer_initiated(server, id),
        ).len(),
        opened_by(records.remove(id), server, !peer_initiated(server, id)).len() == opened_by(
            records,
            server,
            !peer_initiated(server, id),
        ).len(),
{
    let next = records.remove(id);
    let mine = peer_initiated(server, id);
    vstd::set_lib::lemma_len_subset(opened_by(records, server, mine), records.dom());
    assert(opened_by(next, server, mine) =~= opened_by(records, server, mine).remove(id));
    assert(opened_by(records, server, mine).contains(id));
    assert(opened_by(next, server, !mine) =~= opened_by(records, server, !mine));
}

pub struct StreamRegistry<R: Role> {
    role: PhantomData<R>,
    streams: Table<StreamRecord>,
    local_count: usize,
    peer_count: usize,
    next_local_id: IdGen,
    last_peer_id: StreamId,
    reset: Queue<u32>,
}

impl<R: Role> StreamRegistry<R> {
    pub closed spec fn view(&self) -> RegistryView {
        RegistryView {
            records: self.streams.entries(),
            capacity: self.streams.limit(),
            next_local: self.next_local_id.upcoming(),
            last_peer: self.last_peer_id.value(),
            reset: self.reset.items(),
        }
    }

    pub closed spec fn wf(&self) -> bool {
        &&& registry_inv(self@)
        &&& self.local_count == opened_by(self@.records, R::IS_SERVER, false).len()
        &&& self.peer_count == opened_by(self@.records, R::IS_SERVER, true).len()
        &&& self.reset.limit() == RESET_RING_CAP
    }

    pub proof fn lemma_wf(&self)
        requires
            self.wf(),
        ensures
            registry_inv(self@),
    {
    }

    pub fn new(capacity: usize) -> (r: Self)
        requires
            capacity <= u32::MAX,
            R::FIRST_LOCAL_STREAM_ID <= StreamId::MAX,
        ensures
            r.wf(),
            r@ == (RegistryView {
                records: Map::empty(),
                capacity: capacity as nat,
                next_local: Some(R::FIRST_LOCAL_STREAM_ID),
                last_peer: 0,
                reset: Seq::empty(),
            }),
    {
        let first = match StreamId::new(R::FIRST_LOCAL_STREAM_ID) {
            Some(id) => id,
            None => StreamId::connection(),
        };
        let r = StreamRegistry {
            role: PhantomData,
            streams: Table::with_capacity(capacity),
            local_count: 0,
            peer_count: 0,
            next_local_id: IdGen::new(first),
            last_peer_id: StreamId::connection(),
            reset: Queue::with_capacity(RESET_RING_CAP),
        };
        assert(r@.records =~= Map::empty());
        assert(opened_by(r@.records, R::IS_SERVER, false) =~= Set::empty());
        assert(opened_by(r@.records, R::IS_SERVER, true) =~= Set::empty());
        r
    }

    pub fn is_peer_initiated(id: StreamId) -> (r: bool)
        ensures
            r == peer_initiated(R::IS_SERVER, id.value()),
    {
        if R::IS_SERVER {
            id.is_client()
        } else {
            id.is_server()
        }
    }

    pub fn get(&self, id: StreamId) -> (r: Option<&StreamRecord>)
        ensures
            r == (if self@.records.contains_key(id.value()) {
                Some(&self@.records[id.value()])
            } else {
                None
            }),
    {
        self.streams.get(id.as_u32())
    }

    /// Replaces the record of an active stream.
    pub fn put(&mut self, id: StreamId, record: StreamRecord)
        requires
            old(self).wf(),
            old(self)@.records.contains_key(id.value()),
            record.stream.id.value() == id.value(),
        ensures
            final(self).wf(),
            final(self)@ == recorded(old(self)@, record),
    {
        proof {
            lemma_opened_insert(self@.records, R::IS_SERVER, id.value(), record);
        }
        let ghost before = self@;
        let number: u32 = id.as_u32();
        if let Some(entry) = self.streams.get_mut(number) {
            *entry = record;
        }
        assert(self@.records =~= before.records.insert(id.value(), record));
        assert(opened_by(self@.records, R::IS_SERVER, true) =~= opened_by(
            before.records,
            R::IS_SERVER,
            true,
        ));
        assert(opened_by(self@.records, R::IS_SERVER, false) =~= opened_by(
            before.records,
            R::IS_SERVER,
            false,
        ));
    }

    /// Adds a stream, unless its number is taken or there is no room.
    pub fn insert(&mut self, s: Stream, send_window: u32, recv_window: u32) -> (r: Result<
        (),
        Stream,
    >)
        requires
            old(self).wf(),
            s.id.value() != 0,
        ensures
            final(self).wf(),
            r is Ok <==> !old(self)@.records.contains_key(s.id.value())
                && old(self)@.records.len() < old(self)@.capacity,
            r matches Err(refused) ==> refused == s && final(self)@ == old(self)@,
            r is Ok ==> final(self)@ == recorded(
                old(self)@,
                new_record(s, send_window, recv_window),
            ),
    {
        let record = StreamRecord {
            stream: s,
            send_window: Window::with(send_window as i32),
            recv_window: Window::with(recv_window as i32),
            pending_release: 0,
        };
        proof {
            lemma_opened_insert(self@.records, R::IS_SERVER, s.id.value(), record);
        }
        let len: usize = self.streams.len();
        let capacity: usize = self.streams.capacity();
        match self.streams.try_insert(s.id.as_u32(), record) {
            Ok(_) => {
                if Self::is_peer_initiated(s.id) {
                    self.peer_count = self.peer_count + 1;
                } else {
                    self.local_count = self.local_count + 1;
                }
                Ok(())
            },
            Err(record) => Err(record.stream),
        }
    }

    pub fn remove(&mut self, id: StreamId)
        requires
            old(self).wf(),
        ensures
            final(self).wf(),
            final(self)@ == evicted(old(self)@, id.value()),
    {
        proof {
            if self@.records.contains_key(id.value()) {
                lemma_opened_remove(self@.records, R::IS_SERVER, id.value());
            } else {
                assert(self@.records.remove(id.value()) =~= self@.records);
            }
        }
        let ghost before = self@;
        if self.streams.remove(id.as_u32()).is_some() {
            if Self::is_peer_initiated(id) {
                self.peer_count = self.peer_count - 1;
            } else {
                self.local_count = self.local_count - 1;
            }
        }
    }

    pub fn active_count(&self) -> (r: usize)
        ensures
            r == self@.records.len(),
    {
        self.streams.len()
    }

    pub fn reset_count(&self) -> (r: usize)
        ensures
            r == self@.reset.len(),
    {
        self.reset.len()
    }

    pub fn can_accept_peer(&self, limit: usize) -> (r: bool)
        requires
            self.wf(),
        ensures
            r == accepts_peer(self@, R::IS_SERVER, limit as nat),
    {
        self.peer_count < limit && self.streams.len() < self.streams.capacity()
    }

    pub fn can_open_local(&self, limit: usize) -> (r: bool)
        requires
            self.wf(),
        ensures
            r == opens_local(self@, R::IS_SERVER, limit as nat),
    {
        self.local_count < limit && self.streams.len() < self.streams.capacity()
    }

    /// Remembers that a stream was reset.
    pub fn mark_reset(&mut self, id: StreamId)
        requires
            old(self).wf(),
        ensures
            final(self).wf(),
            final(self)@ == reset_marked(old(self)@, id.value()),
    {
        let number: u32 = id.as_u32();
        if self.reset.contains(number) {
            return;
        }
        if self.reset.is_full() {
            let _ = self.reset.pop_front();
        }
        let _ = self.reset.push_back(number);
    }

    pub fn classify(&self, id: StreamId) -> (r: StreamClass)
        ensures
            r == class_of(self@, R::IS_SERVER, id.value()),
    {
        if id.is_zero() {
            return StreamClass::Connection;
        }
        if self.get(id).is_some() {
            return StreamClass::Active;
        }
        let number: u32 = id.as_u32();
        let previously_opened = if Self::is_peer_initiated(id) {
            number <= self.last_peer_id.as_u32()
        } else {
            match self.next_local_id.peek() {
                Some(next) => number < next.as_u32(),
                None => true,
            }
        };
        if previously_opened {
            return if self.reset.contains(number) {
                StreamClass::ClosedRst
            } else {
                StreamClass::ClosedEnd
            };
        }
        StreamClass::Idle
    }

    pub fn last_peer_id(&self) -> (r: StreamId)
        ensures
            r.value() == self@.last_peer,
    {
        self.last_peer_id
    }

    /// Remembers the last stream that the peer opened.
    pub fn observe_peer(&mut self, id: StreamId)
        requires
            old(self).wf(),
        ensures
            final(self).wf(),
            final(self)@ == (RegistryView { last_peer: id.value(), ..old(self)@ }),
    {
        let number: u32 = id.as_u32();
        self.last_peer_id = id;
    }

    /// Takes the number of the next stream of this end.
    pub fn next_local_id(&mut self) -> (r: Option<StreamId>)
        requires
            old(self).wf(),
        ensures
            final(self).wf(),
            r is Some <==> old(self)@.next_local is Some,
            r matches Some(id) ==> old(self)@.next_local == Some(id.value()),
            final(self)@ == (RegistryView {
                next_local: match old(self)@.next_local {
                    Some(n) => stream::following(n),
                    None => None,
                },
                ..old(self)@
            }),
    {
        self.next_local_id.next_id()
    }

    /// Moves the send windows of all streams, one after the other. Where one of them would
    /// overflow, those before it have moved. In which order the streams are walked, only the
    /// table can say.
    pub fn adjust_send_windows(&mut self, delta: i32) -> (r: Result<(), flow::Error>)
        requires
            old(self).wf(),
        ensures
            final(self).wf(),
            r == (if windows_move(old(self)@.records, delta as int) {
                Ok::<(), flow::Error>(())
            } else {
                Err(flow::Error::Overflow)
            }),
            r is Ok ==> final(self)@ == (RegistryView {
                records: windows_moved(old(self)@.records, delta as int),
                ..old(self)@
            }),
            r is Err ==> exists|order: Seq<u32>|
                walks(old(self)@.records, order) && final(self)@ == (RegistryView {
                    records: #[trigger] moved_along(old(self)@.records, order, delta as int).0,
                    ..old(self)@
                }),
    {
        let ghost before = self@;
        let ghost moved = windows_moved(before.records, delta as int);
        let numbers: Vec<u32> = self.streams.numbers();
        proof {
            assert(numbers@.subrange(0, 0) =~= Seq::empty());
            assert(numbers@.subrange(0, numbers@.len() as int) =~= numbers@);
            assert(walks(before.records, numbers@));
        }
        let mut i: usize = 0;
        while i < numbers.len()
            invariant
                i <= numbers@.len(),
                old(self).wf(),
                before == old(self)@,
                moved == windows_moved(before.records, delta as int),
                walks(before.records, numbers@),
                self@ == (RegistryView { records: self@.records, ..before }),
                self.local_count == old(self).local_count,
                self.peer_count == old(self).peer_count,
                self.reset == old(self).reset,
                self@.records.dom() == before.records.dom(),
                moved_along(before.records, numbers@.subrange(0, i as int), delta as int) == (
                    self@.records,
                    true,
                ),
                forall|k: int|
                    0 <= k < i ==> i32::MIN <= before.records[#[trigger] numbers@[k]].send_window.value
                        + delta <= Window::MAX && self@.records[numbers@[k]] == moved[numbers@[k]],
                forall|k: int|
                    i <= k < numbers@.len() ==> self@.records[#[trigger] numbers@[k]]
                        == before.records[numbers@[k]],
                forall|id: u32| #[trigger]
                    self@.records.contains_key(id) ==> self@.records[id].stream
                        == before.records[id].stream,
            decreases numbers@.len() - i,
        {
            let number: u32 = numbers[i];
            assert(numbers@.contains(numbers@[i as int]));
            assert(before.records.contains_key(number));
            let ghost sofar = self@.records;
            let ghost value = sofar[number].send_window.value + delta;
            proof {
                assert(numbers@.subrange(0, i + 1).drop_last() =~= numbers@.subrange(0, i as int));
            }
            if let Some(record) = self.streams.get_mut(number) {
                match record.send_window.adjust_initial(delta) {
                    Ok(_) => {},
                    Err(error) => {
                        proof {
                            assert(!windows_move(before.records, delta as int));
                            assert(self@.records =~= sofar);
                            assert(moved_along(
                                before.records,
                                numbers@.subrange(0, i + 1),
                                delta as int,
                            ) == (sofar, false));
                            lemma_move_stops(before.records, numbers@, i + 1, delta as int);
                            assert(self@ == (RegistryView {
                                records: moved_along(before.records, numbers@, delta as int).0,
                                ..before
                            }));
                            lemma_same_streams(before.records, self@.records, R::IS_SERVER);
                        }
                        return Err(error);
                    },
                }
            }
            assert(self@.records =~= sofar.insert(number, moved[number]));
            assert(self@.records.dom() =~= before.records.dom());
            i = i + 1;
        }
        proof {
            assert forall|id: u32| #[trigger] before.records.contains_key(id) implies i32::MIN
                <= before.records[id].send_window.value + delta <= Window::MAX
                && self@.records[id] == moved[id] by {
                assert(numbers@.contains(id));
                let k = choose|k: int| 0 <= k < numbers@.len() && numbers@[k] == id;
                assert(self@.records[numbers@[k]] == moved[numbers@[k]]);
            }
            assert(self@.records =~= moved);
            lemma_same_streams(before.records, self@.records, R::IS_SERVER);
        }
        Ok(())
    }
}

/// Which streams are open to either end does not depend on their windows.
proof fn lemma_same_streams(a: Map<u32, StreamRecord>, b: Map<u32, StreamRecord>, server: bool)
    requires
        a.dom() == b.dom(),
        forall|id: u32| #[trigger] b.contains_key(id) ==> b[id].stream == a[id].stream,
    ensures
        opened_by(b, server, true) == opened_by(a, server, true),
        opened_by(b, server, false) == opened_by(a, server, false),
        b.len() == a.len(),
{
    assert(opened_by(b, server, true) =~= opened_by(a, server, true));
    assert(opened_by(b, server, false) =~= opened_by(a, server, false));
}

/// What every change of the registry keeps: streams stand under their own numbers and the
/// number of active streams stays within the capacity.
pub proof fn law_registry_keeps_its_limits(v: RegistryView, record: StreamRecord, id: u32)
    requires
        registry_inv(v),
        id <= StreamId::MAX,
        record.stream.id.value() != 0,
    ensures
        v.records.len() < v.capacity ==> registry_inv(recorded(v, record)),
        registry_inv(evicted(v, id)),
        registry_inv(reset_marked(v, id)),
{
    let next = v.records.insert(record.stream.id.value(), record);
    lemma_opened_insert(v.records, true, record.stream.id.value(), record);
    if v.records.contains_key(id) {
        lemma_opened_remove(v.records, true, id);
    } else {
        assert(v.records.remove(id) =~= v.records);
    }
}

/// A stream that was reset and removed is remembered as reset.
pub proof fn law_resets_are_remembered(v: RegistryView, server: bool, id: u32)
    requires
        id != 0,
        registry_inv(v),
        class_of(v, server, id) is Active,
        if peer_initiated(server, id) {
            id <= v.last_peer
        } else {
            v.next_local matches Some(next) ==> id < next
        },
    ensures
        class_of(evicted(reset_marked(v, id), id), server, id) is ClosedRst,
{
    let marked = reset_marked(v, id);
    if !v.reset.contains(id) {
        assert(marked.reset.last() == id);
        assert(marked.reset[marked.reset.len() - 1] == id);
    }
    assert(marked.reset.contains(id));
}

} // verus!
