//! Which handlers run for which streams.
//!
//! A handler that does not answer at once keeps a numbered slot. The slots that belong to one
//! connection form a list, newest first, whose head the connection keeps.

use crate::collections;
use crate::collections::PairTable;
use crate::h2::frame::ErrorCode;
use crate::h2::stream::StreamId;
use vstd::prelude::*;

verus! {

/// A handler that runs.
#[derive(Copy, Clone, Debug)]
pub struct RunningTask {
    connection: u64,
    stream_id: StreamId,
    key: u64,
    previous: Option<u32>,
    next: Option<u32>,
}

/// For what a handler runs, and the key under which it is woken.
pub struct TaskView {
    pub connection: u64,
    pub stream: u32,
    pub key: u64,
}

/// Slots by connection and stream.
pub struct TaskMap {
    entries: PairTable,
}

impl TaskMap {
    pub closed spec fn view(&self) -> Map<(u64, u32), u32> {
        self.entries.entries()
    }

    pub closed spec fn limit(&self) -> nat {
        self.entries.limit()
    }

    pub fn with_capacity(capacity: usize) -> (r: Self)
        requires
            capacity <= u32::MAX,
        ensures
            r@ == Map::<(u64, u32), u32>::empty(),
            r.limit() == capacity,
    {
        TaskMap { entries: PairTable::with_capacity(capacity) }
    }

    fn hash(connection: u64, stream_id: StreamId) -> (r: u64)
        ensures
            r == collections::pair_hash(connection, stream_id.value()),
    {
        let value: u64 = connection ^ (stream_id.as_u32() as u64).wrapping_mul(0x9E37_79B9);
        value.wrapping_mul(0x9E37_79B9_7F4A_7C15)
    }

    pub fn insert(&mut self, connection: u64, stream_id: StreamId, index: u32) -> (r: bool)
        ensures
            final(self).limit() == old(self).limit(),
            r == (!old(self)@.contains_key((connection, stream_id.value())) && old(self)@.len()
                < old(self).limit()),
            final(self)@ == (if r {
                old(self)@.insert((connection, stream_id.value()), index)
            } else {
                old(self)@
            }),
    {
        let hash: u64 = Self::hash(connection, stream_id);
        self.entries.try_insert(hash, connection, stream_id.as_u32(), index)
    }

    pub fn remove(&mut self, connection: u64, stream_id: StreamId) -> (r: Option<u32>)
        ensures
            final(self).limit() == old(self).limit(),
            r == (if old(self)@.contains_key((connection, stream_id.value())) {
                Some(old(self)@[(connection, stream_id.value())])
            } else {
                None
            }),
            final(self)@ == old(self)@.remove((connection, stream_id.value())),
    {
        let hash: u64 = Self::hash(connection, stream_id);
        self.entries.remove(hash, connection, stream_id.as_u32())
    }

    pub fn get(&self, connection: u64, stream_id: StreamId) -> (r: Option<u32>)
        ensures
            r == (if self@.contains_key((connection, stream_id.value())) {
                Some(self@[(connection, stream_id.value())])
            } else {
                None
            }),
    {
        let hash: u64 = Self::hash(connection, stream_id);
        self.entries.get(hash, connection, stream_id.as_u32())
    }

    pub fn is_empty(&self) -> (r: bool)
        ensures
            r == (self@ == Map::<(u64, u32), u32>::empty()),
    {
        self.entries.is_empty()
    }
}

/// All slots, and the slots of each connection that has any, newest first.
#[verifier::ext_equal]
pub struct SchedulerView {
    pub tasks: Seq<Option<TaskView>>,
    pub lines: Map<u64, Seq<u32>>,
}

impl SchedulerView {
    /// The slots of a connection, newest first.
    pub open spec fn line(self, connection: u64) -> Seq<u32> {
        if self.lines.contains_key(connection) {
            self.lines[connection]
        } else {
            Seq::empty()
        }
    }

    /// The newest slot of a connection.
    pub open spec fn head(self, connection: u64) -> Option<u32> {
        if self.line(connection).len() > 0 {
            Some(self.line(connection)[0])
        } else {
            None
        }
    }

    /// Whether a handler runs in a slot.
    pub open spec fn runs(self, index: int) -> bool {
        0 <= index < self.tasks.len() && self.tasks[index] is Some
    }

    /// Whether a handler runs for a stream.
    pub open spec fn serves(self, connection: u64, stream: u32) -> bool {
        exists|i: int| #[trigger]
            self.runs(i) && self.tasks[i]->0.connection == connection && self.tasks[i]->0.stream
                == stream
    }

    pub open spec fn with_line(self, connection: u64, line: Seq<u32>) -> Map<u64, Seq<u32>> {
        if line.len() == 0 {
            self.lines.remove(connection)
        } else {
            self.lines.insert(connection, line)
        }
    }
}

/// A list without one of its numbers.
pub open spec fn without(line: Seq<u32>, index: u32) -> Seq<u32> {
    line.remove(line.index_of(index))
}

/// A handler starts to run in a slot.
pub open spec fn registered(v: SchedulerView, index: u32, t: TaskView) -> SchedulerView {
    SchedulerView {
        tasks: v.tasks.update(index as int, Some(t)),
        lines: v.with_line(t.connection, seq![index] + v.line(t.connection)),
    }
}

/// A handler runs no longer.
pub open spec fn released(v: SchedulerView, index: u32) -> SchedulerView {
    let t = v.tasks[index as int]->0;
    SchedulerView {
        tasks: v.tasks.update(index as int, None),
        lines: v.with_line(t.connection, without(v.line(t.connection), index)),
    }
}

/// No handler of a connection runs any longer.
pub open spec fn closed(v: SchedulerView, connection: u64) -> SchedulerView {
    SchedulerView {
        tasks: v.tasks.map_values(
            |t: Option<TaskView>|
                if t matches Some(x) && x.connection == connection {
                    None
                } else {
                    t
                },
        ),
        lines: v.lines.remove(connection),
    }
}

spec fn task_view(t: Option<RunningTask>) -> Option<TaskView> {
    match t {
        Some(x) => Some(
            TaskView { connection: x.connection, stream: x.stream_id.value(), key: x.key },
        ),
        None => None,
    }
}

/// Whether the slots of a connection are linked in order.
spec fn linked(tasks: Seq<Option<RunningTask>>, line: Seq<u32>, connection: u64) -> bool {
    &&& line.no_duplicates()
    &&& forall|k: int|
        0 <= k < line.len() ==> (#[trigger] line[k]) < tasks.len() && link_ok(
            tasks[line[k] as int],
            line,
            k,
            connection,
        )
}

spec fn link_ok(
    t: Option<RunningTask>,
    line: Seq<u32>,
    k: int,
    connection: u64,
) -> bool {
    &&& t matches Some(x)
    &&& x.connection == connection
    &&& x.previous == (if k > 0 {
        Some(line[k - 1])
    } else {
        None
    })
    &&& x.next == (if k + 1 < line.len() {
        Some(line[k + 1])
    } else {
        None
    })
}

/// Whether slots, lists and the table of streams fit together.
spec fn consistent(
    tasks: Seq<Option<RunningTask>>,
    lines: Map<u64, Seq<u32>>,
    map: Map<(u64, u32), u32>,
) -> bool {
    &&& tasks.len() <= u32::MAX
    &&& forall|c: u64| #[trigger]
        lines.contains_key(c) ==> lines[c].len() > 0 && linked(tasks, lines[c], c)
    &&& forall|i: int|
        0 <= i < tasks.len() && (#[trigger] tasks[i]) is Some ==> lines.contains_key(
            tasks[i]->0.connection,
        ) && lines[tasks[i]->0.connection].contains(i as u32)
    &&& forall|i: int|
        0 <= i < tasks.len() && (#[trigger] tasks[i]) is Some ==> map.contains_key(
            (tasks[i]->0.connection, tasks[i]->0.stream_id.value()),
        ) && map[(tasks[i]->0.connection, tasks[i]->0.stream_id.value())] == i
    &&& forall|key: (u64, u32)| #[trigger]
        map.contains_key(key) ==> map[key] < tasks.len() && tasks[map[key] as int] is Some && (
        tasks[map[key] as int]->0.connection, tasks[map[key] as int]->0.stream_id.value()) == key
}

/// Where a slot is free, the table of streams is not full.
proof fn lemma_not_full(
    tasks: Seq<Option<RunningTask>>,
    lines: Map<u64, Seq<u32>>,
    map: Map<(u64, u32), u32>,
    index: int,
)
    requires
        consistent(tasks, lines, map),
        map.dom().finite(),
        0 <= index < tasks.len(),
        tasks[index] is None,
    ensures
        map.len() < tasks.len(),
{
    let f = |key: (u64, u32)| map[key] as int;
    let slots = vstd::set_lib::set_int_range(0, tasks.len() as int);
    let used = map.dom().map(f);
    vstd::set_lib::lemma_int_range(0, tasks.len() as int);
    assert forall|a: (u64, u32), b: (u64, u32)|
        map.dom().contains(a) && map.dom().contains(b) && f(a) == f(b) implies a == b by {
        assert(map.contains_key(a) && map.contains_key(b));
    }
    assert(vstd::relations::injective_on(f, map.dom()));
    vstd::set_lib::lemma_map_size(map.dom(), used, f);
    assert(used.subset_of(slots.remove(index))) by {
        assert forall|x: int| used.contains(x) implies slots.remove(index).contains(x) by {
            let key = choose|key: (u64, u32)| map.dom().contains(key) && f(key) == x;
            assert(map.contains_key(key));
        }
    }
    vstd::set_lib::lemma_len_subset(used, slots.remove(index));
}

/// A slot that is free is in no list.
proof fn lemma_free(
    tasks: Seq<Option<RunningTask>>,
    lines: Map<u64, Seq<u32>>,
    map: Map<(u64, u32), u32>,
    index: u32,
)
    requires
        consistent(tasks, lines, map),
        index < tasks.len(),
        tasks[index as int] is None,
    ensures
        forall|c: u64| #[trigger] lines.contains_key(c) ==> !lines[c].contains(index),
{
    assert forall|c: u64| #[trigger] lines.contains_key(c) implies !lines[c].contains(index) by {
        if lines[c].contains(index) {
            let k = choose|k: int| 0 <= k < lines[c].len() && lines[c][k] == index;
            assert(link_ok(tasks[lines[c][k] as int], lines[c], k, c));
        }
    }
}

/// The slots of other connections stay linked where none of them changes.
proof fn lemma_linked_elsewhere(
    tasks: Seq<Option<RunningTask>>,
    now: Seq<Option<RunningTask>>,
    line: Seq<u32>,
    c: u64,
    connection: u64,
)
    requires
        linked(tasks, line, c),
        c != connection,
        now.len() == tasks.len(),
        forall|i: int|
            0 <= i < tasks.len() && (#[trigger] tasks[i]) is Some && tasks[i]->0.connection
                != connection ==> now[i] == tasks[i],
    ensures
        linked(now, line, c),
{
    assert forall|k: int| 0 <= k < line.len() implies (#[trigger] line[k]) < now.len() && link_ok(
        now[line[k] as int],
        line,
        k,
        c,
    ) by {
        assert(link_ok(tasks[line[k] as int], line, k, c));
        assert(tasks[line[k] as int] is Some);
    }
}

/// A new slot at the head of the list of its connection.
proof fn lemma_registered(
    tasks: Seq<Option<RunningTask>>,
    lines: Map<u64, Seq<u32>>,
    map: Map<(u64, u32), u32>,
    now: Seq<Option<RunningTask>>,
    index: u32,
    t: RunningTask,
    line: Seq<u32>,
)
    requires
        consistent(tasks, lines, map),
        index < tasks.len(),
        tasks[index as int] is None,
        line == (if lines.contains_key(t.connection) {
            lines[t.connection]
        } else {
            Seq::empty()
        }),
        !map.contains_key((t.connection, t.stream_id.value())),
        t.previous is None,
        t.next == (if line.len() > 0 {
            Some(line[0])
        } else {
            None
        }),
        now == (if line.len() > 0 {
            tasks.update(index as int, Some(t)).update(
                line[0] as int,
                Some(RunningTask { previous: Some(index), ..tasks[line[0] as int]->0 }),
            )
        } else {
            tasks.update(index as int, Some(t))
        }),
    ensures
        consistent(
            now,
            lines.insert(t.connection, seq![index] + line),
            map.insert((t.connection, t.stream_id.value()), index),
        ),
        forall|i: int|
            0 <= i < now.len() ==> task_view(#[trigger] now[i]) == (if i == index {
                task_view(Some(t))
            } else {
                task_view(tasks[i])
            }),
{
    let c = t.connection;
    let all = seq![index] + line;
    let after = lines.insert(c, all);
    lemma_free(tasks, lines, map, index);
    if line.len() > 0 {
        assert(lines.contains_key(c));
        assert(link_ok(tasks[line[0] as int], line, 0, c));
        assert(line.contains(line[0]));
    }
    assert(linked(now, all, c)) by {
        assert forall|i: int, j: int| 0 <= i < all.len() && 0 <= j < all.len() && i
            != j implies all[i] != all[j] by {
            if i == 0 {
                assert(line.contains(line[j - 1]));
            } else if j == 0 {
                assert(line.contains(line[i - 1]));
            }
        }
        assert forall|k: int| 0 <= k < all.len() implies (#[trigger] all[k]) < now.len()
            && link_ok(now[all[k] as int], all, k, c) by {
            if k > 0 {
                assert(all[k] == line[k - 1]);
                assert(link_ok(tasks[line[k - 1] as int], line, k - 1, c));
                assert(line.contains(line[k - 1]));
            }
        }
    }
    assert forall|x: u64| #[trigger] after.contains_key(x) implies after[x].len() > 0 && linked(
        now,
        after[x],
        x,
    ) by {
        if x != c {
            assert(lines.contains_key(x));
            lemma_linked_elsewhere(tasks, now, lines[x], x, c);
        }
    }
    assert forall|i: int| 0 <= i < now.len() && (#[trigger] now[i]) is Some implies after[
    now[i]->0.connection].contains(i as u32) && after.contains_key(now[i]->0.connection) by {
        if i == index {
            assert(all[0] == i as u32);
        } else {
            assert(tasks[i] is Some);
            if tasks[i]->0.connection == c {
                let k = choose|k: int| 0 <= k < line.len() && line[k] == i as u32;
                assert(all[k + 1] == i as u32);
            }
        }
    }
    let key = (c, t.stream_id.value());
    let known = map.insert(key, index);
    assert forall|i: int| 0 <= i < now.len() && (#[trigger] now[i]) is Some implies {
        let k = (now[i]->0.connection, now[i]->0.stream_id.value());
        known.contains_key(k) && known[k] == i
    } by {
        if i != index {
            assert(tasks[i] is Some);
        }
    }
    assert forall|k: (u64, u32)| #[trigger] known.contains_key(k) implies known[k] < now.len()
        && now[known[k] as int] is Some && (
    now[known[k] as int]->0.connection, now[known[k] as int]->0.stream_id.value()) == k by {
        if k != key {
            assert(map.contains_key(k));
        }
    }
}

/// A slot that leaves the list of its connection.
#[verifier::spinoff_prover]
proof fn lemma_released(
    tasks: Seq<Option<RunningTask>>,
    lines: Map<u64, Seq<u32>>,
    map: Map<(u64, u32), u32>,
    now: Seq<Option<RunningTask>>,
    index: u32,
    k: int,
)
    requires
        consistent(tasks, lines, map),
        index < tasks.len(),
        tasks[index as int] is Some,
        lines.contains_key(tasks[index as int]->0.connection),
        0 <= k < lines[tasks[index as int]->0.connection].len(),
        lines[tasks[index as int]->0.connection][k] == index,
        ({
            let t = tasks[index as int]->0;
            let cut = tasks.update(index as int, None);
            let before = match t.previous {
                Some(p) => cut.update(p as int, Some(RunningTask { next: t.next, ..cut[p as int]->0 })),
                None => cut,
            };
            now == match t.next {
                Some(n) => before.update(
                    n as int,
                    Some(RunningTask { previous: t.previous, ..before[n as int]->0 }),
                ),
                None => before,
            }
        }),
    ensures
        ({
            let c = tasks[index as int]->0.connection;
            let left = lines[c].remove(k);
            consistent(
                now,
                if left.len() == 0 {
                    lines.remove(c)
                } else {
                    lines.insert(c, left)
                },
                map.remove((c, tasks[index as int]->0.stream_id.value())),
            )
        }),
        forall|i: int|
            0 <= i < now.len() ==> task_view(#[trigger] now[i]) == (if i == index {
                None
            } else {
                task_view(tasks[i])
            }),
{
    let t = tasks[index as int]->0;
    let c = t.connection;
    let line = lines[c];
    let left = line.remove(k);
    let after = if left.len() == 0 {
        lines.remove(c)
    } else {
        lines.insert(c, left)
    };
    assert(link_ok(tasks[line[k] as int], line, k, c));
    if k > 0 {
        assert(link_ok(tasks[line[k - 1] as int], line, k - 1, c));
    }
    if k + 1 < line.len() {
        assert(link_ok(tasks[line[k + 1] as int], line, k + 1, c));
    }
    assert(linked(now, left, c)) by {
        assert forall|i: int, j: int| 0 <= i < left.len() && 0 <= j < left.len() && i
            != j implies left[i] != left[j] by {
            let a = if i < k {
                i
            } else {
                i + 1
            };
            let b = if j < k {
                j
            } else {
                j + 1
            };
            assert(left[i] == line[a] && left[j] == line[b]);
        }
        assert forall|i: int| 0 <= i < left.len() implies (#[trigger] left[i]) < now.len()
            && link_ok(now[left[i] as int], left, i, c) by {
            let a = if i < k {
                i
            } else {
                i + 1
            };
            assert(left[i] == line[a]);
            assert(link_ok(tasks[line[a] as int], line, a, c));
            assert(line[a] != line[k]);
            if i > 0 {
                assert(left[i - 1] == line[if i - 1 < k {
                    i - 1
                } else {
                    i
                }]);
            }
            if i + 1 < left.len() {
                assert(left[i + 1] == line[if i + 1 < k {
                    i + 1
                } else {
                    i + 2
                }]);
            }
        }
    }
    assert forall|x: u64| #[trigger] after.contains_key(x) implies after[x].len() > 0 && linked(
        now,
        after[x],
        x,
    ) by {
        if x != c {
            assert(lines.contains_key(x));
            lemma_linked_elsewhere(tasks, now, lines[x], x, c);
        }
    }
    assert forall|i: int| 0 <= i < now.len() && (#[trigger] now[i]) is Some implies after[
    now[i]->0.connection].contains(i as u32) && after.contains_key(now[i]->0.connection) by {
        assert(tasks[i] is Some);
        if tasks[i]->0.connection == c {
            let j = choose|j: int| 0 <= j < line.len() && line[j] == i as u32;
            assert(j != k);
            let m = if j < k {
                j
            } else {
                j - 1
            };
            assert(left[m] == i as u32);
        }
    }
    let key = (c, t.stream_id.value());
    let known = map.remove(key);
    assert forall|i: int| 0 <= i < now.len() && (#[trigger] now[i]) is Some implies {
        let x = (now[i]->0.connection, now[i]->0.stream_id.value());
        known.contains_key(x) && known[x] == i
    } by {
        assert(tasks[i] is Some);
        assert(map[key] == index);
    }
    assert forall|x: (u64, u32)| #[trigger] known.contains_key(x) implies known[x] < now.len()
        && now[known[x] as int] is Some && (
    now[known[x] as int]->0.connection, now[known[x] as int]->0.stream_id.value()) == x by {
        assert(map.contains_key(x));
        assert(map[key] == index);
    }
}

/// What polling a handler gave: an answer, nothing yet, or that there is no such handler.
#[derive(Copy, Clone, Debug, PartialEq, Eq, Structural)]
pub enum Polled {
    Ready,
    Pending,
    Gone,
}

/// What came of a handler that was started.
#[derive(Copy, Clone, Debug, PartialEq, Eq, Structural)]
pub enum Started {
    Ready,
    Pending,
    Refused,
    Failed,
}

impl Started {
    /// The error with which the stream is reset, if it is.
    pub fn error(self) -> (r: Option<ErrorCode>)
        ensures
            r == (match self {
                Started::Ready => None,
                Started::Pending => None,
                Started::Refused => Some(ErrorCode::RefusedStream),
                Started::Failed => Some(ErrorCode::InternalError),
            }),
    {
        match self {
            Started::Ready => None,
            Started::Pending => None,
            Started::Refused => Some(ErrorCode::RefusedStream),
            Started::Failed => Some(ErrorCode::InternalError),
        }
    }
}

/// What came of a handler that was woken.
#[derive(Copy, Clone, Debug)]
pub enum Resumed {
    Ready(StreamId),
    Pending,
    Failed(StreamId),
    Stale,
}

/// The handlers that run.
pub struct Scheduler {
    tasks: Vec<Option<RunningTask>>,
    task_map: TaskMap,
    lines: Ghost<Map<u64, Seq<u32>>>,
}

impl Scheduler {
    pub closed spec fn view(&self) -> SchedulerView {
        SchedulerView {
            tasks: self.tasks@.map_values(|t: Option<RunningTask>| task_view(t)),
            lines: self.lines@,
        }
    }

    /// Whether slots, lists and the table of streams fit together.
    pub closed spec fn wf(&self) -> bool {
        &&& consistent(self.tasks@, self.lines@, self.task_map@)
        &&& self.task_map@.dom().finite()
        &&& self.task_map.limit() == self.tasks@.len()
    }

    pub fn with_capacity(capacity: usize) -> (r: Self)
        requires
            0 < capacity <= u32::MAX,
        ensures
            r.wf(),
            r@.tasks.len() == capacity,
            forall|i: int| 0 <= i < capacity ==> (#[trigger] r@.tasks[i]) is None,
            r@.lines == Map::<u64, Seq<u32>>::empty(),
    {
        let mut tasks: Vec<Option<RunningTask>> = Vec::new();
        while tasks.len() < capacity
            invariant
                tasks@.len() <= capacity,
                forall|i: int| 0 <= i < tasks@.len() ==> (#[trigger] tasks@[i]) is None,
            decreases capacity - tasks@.len(),
        {
            tasks.push(None);
        }
        Scheduler {
            tasks,
            task_map: TaskMap::with_capacity(capacity),
            lines: Ghost(Map::empty()),
        }
    }

    /// Whether the handler that a key wakes still runs, and for this connection.
    pub fn is_current(&self, index: u32, key: u64, connection: u64) -> (r: bool)
        ensures
            r == (self@.runs(index as int) && self@.tasks[index as int]->0.key == key
                && self@.tasks[index as int]->0.connection == connection),
    {
        if index as usize >= self.tasks.len() {
            return false;
        }
        match self.tasks[index as usize] {
            Some(running) => running.key == key && running.connection == connection,
            None => false,
        }
    }

    /// A handler that has not answered at once starts to run in a slot, unless the slot is
    /// taken or a handler runs for the stream already. `head` is what the connection keeps.
    pub fn register_task(
        &mut self,
        head: &mut Option<u32>,
        index: u32,
        connection: u64,
        stream_id: StreamId,
        key: u64,
    ) -> (r: bool)
        requires
            old(self).wf(),
            *old(head) == old(self)@.head(connection),
        ensures
            final(self).wf(),
            *final(head) == final(self)@.head(connection),
            r == (index < old(self)@.tasks.len() && !old(self)@.runs(index as int) && !old(
                self,
            )@.serves(connection, stream_id.value())),
            final(self)@ == (if r {
                registered(
                    old(self)@,
                    index,
                    TaskView { connection, stream: stream_id.value(), key },
                )
            } else {
                old(self)@
            }),
    {
        let ghost tasks = self.tasks@;
        let ghost lines = self.lines@;
        let ghost map = self.task_map@;
        let ghost line = self@.line(connection);
        if index as usize >= self.tasks.len() {
            return false;
        }
        if self.tasks[index as usize].is_some() {
            assert(self@.runs(index as int));
            return false;
        }
        proof {
            lemma_not_full(tasks, lines, map, index as int);
            let at = (connection, stream_id.value());
            if map.contains_key(at) {
                assert(self@.runs(map[at] as int));
            }
            if self@.serves(connection, stream_id.value()) {
                let i = choose|i: int| #[trigger]
                    self@.runs(i) && self@.tasks[i]->0.connection == connection
                        && self@.tasks[i]->0.stream == stream_id.value();
                assert(tasks[i] is Some);
            }
            if line.len() > 0 {
                assert(lines.contains_key(connection));
                assert(link_ok(tasks[line[0] as int], line, 0, connection));
            }
        }
        if let Some(next) = *head {
            if next as usize >= self.tasks.len() {
                return false;
            }
            match self.tasks[next as usize] {
                Some(running) => {
                    if running.connection != connection {
                        return false;
                    }
                },
                None => {
                    return false;
                },
            }
        }
        if !self.task_map.insert(connection, stream_id, index) {
            return false;
        }
        let running = RunningTask { connection, stream_id, key, previous: None, next: *head };
        self.tasks.set(index as usize, Some(running));
        if let Some(next) = *head {
            if let Some(other) = self.tasks[next as usize] {
                self.tasks.set(
                    next as usize,
                    Some(RunningTask { previous: Some(index), ..other }),
                );
            }
        }
        *head = Some(index);
        proof {
            lemma_registered(tasks, lines, map, self.tasks@, index, running, line);
            self.lines@ = lines.insert(connection, seq![index] + line);
            assert(self@ =~= registered(
                old(self)@,
                index,
                TaskView { connection, stream: stream_id.value(), key },
            ));
        }
        true
    }

    /// A handler runs no longer; the result is the stream for which it ran. `head` is what its
    /// connection keeps.
    pub fn release_task(&mut self, head: &mut Option<u32>, index: u32) -> (r: Option<StreamId>)
        requires
            old(self).wf(),
            old(self)@.runs(index as int) ==> *old(head) == old(self)@.head(
                old(self)@.tasks[index as int]->0.connection,
            ),
        ensures
            final(self).wf(),
            match r {
                Some(stream_id) => {
                    &&& old(self)@.runs(index as int)
                    &&& stream_id.value() == old(self)@.tasks[index as int]->0.stream
                    &&& final(self)@ == released(old(self)@, index)
                    &&& *final(head) == final(self)@.head(
                        old(self)@.tasks[index as int]->0.connection,
                    )
                },
                None => {
                    &&& !old(self)@.runs(index as int)
                    &&& final(self)@ == old(self)@
                    &&& *final(head) == *old(head)
                },
            },
    {
        let ghost tasks = self.tasks@;
        let ghost lines = self.lines@;
        let ghost map = self.task_map@;
        if index as usize >= self.tasks.len() {
            return None;
        }
        let running = match self.tasks[index as usize] {
            Some(running) => running,
            None => {
                return None;
            },
        };
        let ghost connection = running.connection;
        let ghost line = lines[connection];
        let ghost k = line.index_of(index);
        proof {
            assert(self@.runs(index as int));
            assert(tasks[index as int] is Some);
            assert(line.contains(index));
            assert(0 <= k < line.len() && line[k] == index);
            assert(link_ok(tasks[line[k] as int], line, k, connection));
            assert(link_ok(tasks[line[0] as int], line, 0, connection));
            if k > 0 {
                assert(link_ok(tasks[line[k - 1] as int], line, k - 1, connection));
            }
            if k + 1 < line.len() {
                assert(link_ok(tasks[line[k + 1] as int], line, k + 1, connection));
            }
        }
        self.tasks.set(index as usize, None);
        self.task_map.remove(running.connection, running.stream_id);
        if let Some(previous) = running.previous {
            if let Some(other) = self.tasks[previous as usize] {
                self.tasks.set(
                    previous as usize,
                    Some(RunningTask { next: running.next, ..other }),
                );
            }
        } else if let Some(first) = *head {
            if first == index {
                *head = running.next;
            }
        }
        if let Some(next) = running.next {
            if let Some(other) = self.tasks[next as usize] {
                self.tasks.set(
                    next as usize,
                    Some(RunningTask { previous: running.previous, ..other }),
                );
            }
        }
        proof {
            lemma_released(tasks, lines, map, self.tasks@, index, k);
            let left = line.remove(k);
            self.lines@ = if left.len() == 0 {
                lines.remove(connection)
            } else {
                lines.insert(connection, left)
            };
            assert(old(self)@.line(connection) == line);
            assert(without(line, index) == left);
            assert(self@ =~= released(old(self)@, index));
        }
        Some(running.stream_id)
    }

    /// The handler for a stream runs no longer, if there is one; the result is its slot.
    pub fn cancel(&mut self, head: &mut Option<u32>, connection: u64, stream_id: StreamId) -> (r:
        Option<u32>)
        requires
            old(self).wf(),
            *old(head) == old(self)@.head(connection),
        ensures
            final(self).wf(),
            *final(head) == final(self)@.head(connection),
            match r {
                Some(index) => {
                    &&& old(self)@.runs(index as int)
                    &&& old(self)@.tasks[index as int]->0.connection == connection
                    &&& old(self)@.tasks[index as int]->0.stream == stream_id.value()
                    &&& final(self)@ == released(old(self)@, index)
                },
                None => !old(self)@.serves(connection, stream_id.value()) && final(self)@ == old(
                    self,
                )@,
            },
    {
        proof {
            let at = (connection, stream_id.value());
            if self@.serves(connection, stream_id.value()) {
                let i = choose|i: int| #[trigger]
                    self@.runs(i) && self@.tasks[i]->0.connection == connection
                        && self@.tasks[i]->0.stream == stream_id.value();
                assert(self.tasks@[i] is Some);
            }
            if self.task_map@.contains_key(at) {
                assert(self@.runs(self.task_map@[at] as int));
            }
        }
        match self.task_map.get(connection, stream_id) {
            Some(index) => {
                self.release_task(head, index);
                Some(index)
            },
            None => None,
        }
    }

    /// No handler of a connection runs any longer; the result is their slots, newest first.
    pub fn close(&mut self, head: &mut Option<u32>, connection: u64) -> (r: Vec<u32>)
        requires
            old(self).wf(),
            *old(head) == old(self)@.head(connection),
        ensures
            final(self).wf(),
            *final(head) is None,
            r@ == old(self)@.line(connection),
            final(self)@ == closed(old(self)@, connection),
    {
        let ghost before = self@;
        let mut out: Vec<u32> = Vec::new();
        assert(before.line(connection).skip(0) =~= before.line(connection));
        while head.is_some()
            invariant
                self.wf(),
                *head == self@.head(connection),
                out@ + self@.line(connection) == before.line(connection),
                closed(self@, connection) == closed(before, connection),
            decreases self@.line(connection).len(),
        {
            let index: u32 = head.unwrap();
            let ghost now = self@;
            proof {
                self.lemma_line(connection, 0);
            }
            let released_stream = self.release_task(head, index);
            out.push(index);
            proof {
                let line = now.line(connection);
                assert(line.contains(index));
                assert(line.index_of(index) == 0);
                assert(self@.line(connection) =~= line.drop_first());
                assert(out@ + self@.line(connection) =~= before.line(connection));
                assert(closed(self@, connection) =~= closed(now, connection));
            }
            if released_stream.is_none() {
                *head = None;
            }
        }
        proof {
            self.lemma_alone(connection);
        }
        assert(out@ =~= before.line(connection));
        out
    }

    /// The slots in the list of a connection run for it, and each stands there once.
    proof fn lemma_line(&self, connection: u64, k: int)
        requires
            self.wf(),
            0 <= k < self@.line(connection).len(),
        ensures
            self@.runs(self@.line(connection)[k] as int),
            self@.tasks[self@.line(connection)[k] as int]->0.connection == connection,
            self@.line(connection).no_duplicates(),
    {
        assert(self.lines@.contains_key(connection));
        let line = self.lines@[connection];
        assert(link_ok(self.tasks@[line[k] as int], line, k, connection));
    }

    /// A connection without a list has no handlers.
    proof fn lemma_alone(&self, connection: u64)
        requires
            self.wf(),
            self@.line(connection).len() == 0,
        ensures
            closed(self@, connection) == self@,
    {
        assert(!self.lines@.contains_key(connection));
        let after = closed(self@, connection);
        assert forall|i: int| 0 <= i < self@.tasks.len() implies #[trigger] after.tasks[i]
            == self@.tasks[i] by {
            if self.tasks@[i] is Some {
                assert(self.lines@.contains_key(self.tasks@[i]->0.connection));
            }
        }
        assert(after =~= self@);
    }

    /// What comes of a handler that was polled for the first time. `bound` says whether it can
    /// be woken.
    pub fn start(
        &mut self,
        head: &mut Option<u32>,
        index: u32,
        connection: u64,
        stream_id: StreamId,
        key: u64,
        bound: bool,
        polled: Polled,
    ) -> (r: Started)
        requires
            old(self).wf(),
            *old(head) == old(self)@.head(connection),
        ensures
            final(self).wf(),
            *final(head) == final(self)@.head(connection),
            r == (if !bound {
                Started::Failed
            } else {
                match polled {
                    Polled::Ready => Started::Ready,
                    Polled::Gone => Started::Failed,
                    Polled::Pending => if index < old(self)@.tasks.len() && !old(self)@.runs(
                        index as int,
                    ) && !old(self)@.serves(connection, stream_id.value()) {
                        Started::Pending
                    } else {
                        Started::Refused
                    },
                }
            }),
            final(self)@ == (if r == Started::Pending {
                registered(
                    old(self)@,
                    index,
                    TaskView { connection, stream: stream_id.value(), key },
                )
            } else {
                old(self)@
            }),
    {
        if !bound {
            return Started::Failed;
        }
        match polled {
            Polled::Ready => Started::Ready,
            Polled::Pending => {
                if self.register_task(head, index, connection, stream_id, key) {
                    Started::Pending
                } else {
                    Started::Refused
                }
            },
            Polled::Gone => Started::Failed,
        }
    }

    /// What comes of a handler that was woken and polled again.
    pub fn resume(
        &mut self,
        head: &mut Option<u32>,
        index: u32,
        key: u64,
        connection: u64,
        polled: Polled,
    ) -> (r: Resumed)
        requires
            old(self).wf(),
            *old(head) == old(self)@.head(connection),
        ensures
            final(self).wf(),
            *final(head) == final(self)@.head(connection),
            ({
                let current = old(self)@.runs(index as int) && old(self)@.tasks[index as int]->0.key
                    == key && old(self)@.tasks[index as int]->0.connection == connection;
                let stream = old(self)@.tasks[index as int]->0.stream;
                match r {
                    Resumed::Stale => !current && final(self)@ == old(self)@,
                    Resumed::Pending => current && polled == Polled::Pending && final(self)@
                        == old(self)@,
                    Resumed::Ready(id) => current && polled == Polled::Ready && id.value()
                        == stream && final(self)@ == released(old(self)@, index),
                    Resumed::Failed(id) => current && polled == Polled::Gone && id.value()
                        == stream && final(self)@ == released(old(self)@, index),
                }
            }),
    {
        if !self.is_current(index, key, connection) {
            return Resumed::Stale;
        }
        match polled {
            Polled::Pending => Resumed::Pending,
            Polled::Ready => match self.release_task(head, index) {
                Some(id) => Resumed::Ready(id),
                None => Resumed::Stale,
            },
            Polled::Gone => match self.release_task(head, index) {
                Some(id) => Resumed::Failed(id),
                None => Resumed::Stale,
            },
        }
    }

    /// Whether no handler runs.
    pub fn is_idle(&self) -> (r: bool)
        requires
            self.wf(),
        ensures
            r == (forall|i: int| !(#[trigger] self@.runs(i))),
    {
        let r = self.task_map.is_empty();
        proof {
            if r {
                assert forall|i: int| !(#[trigger] self@.runs(i)) by {
                    if self@.runs(i) {
                        assert(self.tasks@[i] is Some);
                    }
                }
            } else {
                assert(!(self.task_map@ =~= Map::<(u64, u32), u32>::empty()));
                let at = choose|at: (u64, u32)| self.task_map@.contains_key(at);
                assert(self.task_map@.contains_key(at));
                assert(self@.runs(self.task_map@[at] as int));
            }
        }
        r
    }
}

/// A handler that starts and ends leaves everything as it was.
pub proof fn law_releasing_undoes_registering(v: SchedulerView, index: u32, t: TaskView)
    requires
        index < v.tasks.len(),
        !v.runs(index as int),
        !v.line(t.connection).contains(index),
        v.lines.contains_key(t.connection) ==> v.lines[t.connection].len() > 0,
    ensures
        released(registered(v, index, t), index) == v,
{
    let w = registered(v, index, t);
    let old_line = v.line(t.connection);
    let line = seq![index] + old_line;
    assert(w.line(t.connection) == line);
    assert(line[0] == index);
    assert(line.contains(index));
    let k = line.index_of(index);
    assert(k == 0) by {
        if k > 0 {
            assert(old_line[k - 1] == index);
        }
    }
    assert(without(line, index) =~= old_line);
    let u = released(w, index);
    assert(u.tasks =~= v.tasks);
    assert(u.lines =~= v.lines);
}

/// What happens to the handlers of one connection leaves those of another as they were.
pub proof fn law_connections_are_apart(
    v: SchedulerView,
    index: u32,
    t: TaskView,
    gone: u32,
    connection: u64,
    other: u64,
)
    requires
        index < v.tasks.len(),
        !v.runs(index as int),
        v.runs(gone as int),
        v.tasks[gone as int]->0.connection == connection,
        t.connection == connection,
        other != connection,
    ensures
        registered(v, index, t).line(other) == v.line(other),
        released(v, gone).line(other) == v.line(other),
        closed(v, connection).line(other) == v.line(other),
        forall|i: int|
            #![trigger v.runs(i)]
            v.runs(i) && v.tasks[i]->0.connection == other ==> registered(v, index, t).tasks[i]
                == v.tasks[i] && released(v, gone).tasks[i] == v.tasks[i] && closed(
                v,
                connection,
            ).tasks[i] == v.tasks[i],
{
}

} // verus!
