//! The header fields that were sent before, newest first, within a size limit.

use crate::bytes::equal;
use crate::h2::hpack::FieldView;
use vstd::prelude::*;

verus! {

/// What a field counts for beyond its bytes.
pub const OVERHEAD: usize = 32;

/// The largest limit that a table can have: its sizes fit into 32 bits, and twice as many bytes can
/// be addressed.
pub open spec fn table_cap() -> nat {
    if usize::MAX / 2 < u32::MAX {
        (usize::MAX / 2) as nat
    } else {
        u32::MAX as nat
    }
}

/// The limit for a table that may have up to `n`. With addresses of 64 bits it is `n`.
pub open spec fn table_size(n: u32) -> u32 {
    if n > table_cap() {
        table_cap() as u32
    } else {
        n
    }
}

/// The largest limit that a table can have.
pub fn largest() -> (r: usize)
    ensures
        r == table_cap(),
{
    let half: usize = usize::MAX / 2;
    if half < u32::MAX as usize {
        half
    } else {
        u32::MAX as usize
    }
}

/// The limit for a table that may have up to `n`.
pub fn limit_for(n: u32) -> (r: u32)
    ensures
        r == table_size(n),
{
    let cap: usize = largest();
    if n as usize > cap {
        cap as u32
    } else {
        n
    }
}

/// What a field counts for.
pub open spec fn field_size(f: FieldView) -> nat {
    f.name.len() + f.value.len() + OVERHEAD as nat
}

/// What a list of fields counts for.
pub open spec fn list_size(fields: Seq<FieldView>) -> nat
    decreases fields.len(),
{
    if fields.len() == 0 {
        0
    } else {
        list_size(fields.drop_last()) + field_size(fields.last())
    }
}

/// The first fields count for no more than all of them.
pub proof fn lemma_part_size(fields: Seq<FieldView>, n: int)
    requires
        0 <= n <= fields.len(),
    ensures
        list_size(fields.take(n)) <= list_size(fields),
    decreases fields.len(),
{
    if n < fields.len() {
        lemma_part_size(fields.drop_last(), n);
        assert(fields.drop_last().take(n) =~= fields.take(n));
    } else {
        assert(fields.take(n) =~= fields);
    }
}

/// The newest fields of the list that count for `room` at most.
pub open spec fn evicted(fields: Seq<FieldView>, room: int) -> Seq<FieldView>
    decreases fields.len(),
{
    if fields.len() == 0 || list_size(fields) <= room {
        fields
    } else {
        evicted(fields.drop_last(), room)
    }
}

/// The table as a list of fields, newest first, and its limit.
#[verifier::ext_equal]
pub struct TableView {
    pub fields: Seq<FieldView>,
    pub max: nat,
}

/// The table with another limit; the oldest fields go until it is kept.
pub open spec fn resized(t: TableView, max: nat) -> TableView {
    TableView { fields: evicted(t.fields, max as int), max }
}

/// The table with a field added; the oldest fields go until it fits. A field that can never
/// fit empties the table.
pub open spec fn inserted(t: TableView, f: FieldView) -> TableView {
    if field_size(f) > t.max {
        TableView { fields: Seq::empty(), max: t.max }
    } else {
        TableView {
            fields: seq![f] + evicted(t.fields, t.max - field_size(f)),
            max: t.max,
        }
    }
}

/// The first place from `i` on that holds the field `f`.
pub open spec fn find_field(fields: Seq<FieldView>, f: FieldView, i: int) -> Option<int>
    decreases fields.len() - i,
{
    if i < 0 || i >= fields.len() {
        None
    } else if fields[i] == f {
        Some(i)
    } else {
        find_field(fields, f, i + 1)
    }
}

/// The first place from `i` on that holds a field of the name `name`.
pub open spec fn find_name(fields: Seq<FieldView>, name: Seq<u8>, i: int) -> Option<int>
    decreases fields.len() - i,
{
    if i < 0 || i >= fields.len() {
        None
    } else if fields[i].name == name {
        Some(i)
    } else {
        find_name(fields, name, i + 1)
    }
}

pub proof fn lemma_find_field(fields: Seq<FieldView>, f: FieldView, i: int)
    requires
        0 <= i,
    ensures
        find_field(fields, f, i) matches Some(k) ==> i <= k < fields.len() && fields[k] == f,
    decreases fields.len() - i,
{
    if i < fields.len() {
        lemma_find_field(fields, f, i + 1);
    }
}

pub proof fn lemma_find_name(fields: Seq<FieldView>, name: Seq<u8>, i: int)
    requires
        0 <= i,
    ensures
        find_name(fields, name, i) matches Some(k) ==> i <= k < fields.len() && fields[k].name
            == name,
        find_name(fields, name, i) is None ==> forall|k: int|
            i <= k < fields.len() ==> (#[trigger] fields[k]).name != name,
    decreases fields.len() - i,
{
    if i < fields.len() {
        lemma_find_name(fields, name, i + 1);
    }
}

pub proof fn lemma_evicted(fields: Seq<FieldView>, room: int)
    ensures
        room >= 0 ==> list_size(evicted(fields, room)) <= room,
        evicted(fields, room).len() <= fields.len(),
        evicted(fields, room) == fields.subrange(0, evicted(fields, room).len() as int),
    decreases fields.len(),
{
    if fields.len() == 0 || list_size(fields) <= room {
        assert(fields.subrange(0, fields.len() as int) =~= fields);
    } else {
        lemma_evicted(fields.drop_last(), room);
        let kept = evicted(fields.drop_last(), room);
        assert(fields.drop_last().subrange(0, kept.len() as int) =~= fields.subrange(
            0,
            kept.len() as int,
        ));
    }
}

pub proof fn lemma_size_front(f: FieldView, fields: Seq<FieldView>)
    ensures
        list_size(seq![f] + fields) == field_size(f) + list_size(fields),
    decreases fields.len(),
{
    if fields.len() == 0 {
        assert(seq![f] + fields =~= seq![f]);
        assert(seq![f].drop_last() =~= Seq::<FieldView>::empty());
        assert(list_size(seq![f].drop_last()) == 0);
    } else {
        lemma_size_front(f, fields.drop_last());
        assert((seq![f] + fields).drop_last() =~= seq![f] + fields.drop_last());
    }
}

/// The last fields count for no more than all of them.
proof fn lemma_size_back(fields: Seq<FieldView>, n: int)
    requires
        0 <= n < fields.len(),
    ensures
        field_size(fields[n]) + list_size(fields.skip(n + 1)) <= list_size(fields),
    decreases n,
{
    lemma_size_front(fields[0], fields.skip(1));
    assert(seq![fields[0]] + fields.skip(1) =~= fields);
    if n > 0 {
        lemma_size_back(fields.skip(1), n - 1);
        assert(fields.skip(1).skip(n) =~= fields.skip(n + 1));
    }
}

pub proof fn lemma_list_len(fields: Seq<FieldView>)
    ensures
        list_size(fields) >= OVERHEAD * fields.len(),
    decreases fields.len(),
{
    if fields.len() > 0 {
        lemma_list_len(fields.drop_last());
    }
}

/// A limit of nothing empties the table.
pub proof fn lemma_emptied(t: TableView)
    ensures
        resized(t, 0).fields == Seq::<FieldView>::empty(),
        forall|n: nat| #[trigger]
            resized(resized(t, 0), n) == (TableView { fields: Seq::empty(), max: n }),
{
    lemma_evicted(t.fields, 0);
    lemma_list_len(evicted(t.fields, 0));
    assert(resized(t, 0).fields =~= Seq::<FieldView>::empty());
}

/// A limit makes no difference when a smaller one follows.
pub proof fn lemma_resized_twice(t: TableView, a: nat, b: nat)
    requires
        b <= a,
    ensures
        resized(resized(t, a), b) == resized(t, b),
{
    lemma_evicted_twice(t.fields, a as int, b as int);
}

proof fn lemma_evicted_twice(fields: Seq<FieldView>, a: int, b: int)
    requires
        b <= a,
    ensures
        evicted(evicted(fields, a), b) == evicted(fields, b),
    decreases fields.len(),
{
    if fields.len() > 0 && list_size(fields) > a {
        lemma_evicted_twice(fields.drop_last(), a, b);
    }
}

/// Whether the fields keep the limit.
pub open spec fn table_inv(t: TableView) -> bool {
    list_size(t.fields) <= t.max
}

/// The limit is kept whatever is added and however the limit moves.
pub proof fn law_table_keeps_its_limit(t: TableView, f: FieldView, max: nat)
    requires
        table_inv(t),
    ensures
        table_inv(inserted(t, f)),
        table_inv(resized(t, max)),
        inserted(t, f).max == t.max,
        resized(t, max).max == max,
{
    lemma_evicted(t.fields, max as int);
    if field_size(f) <= t.max {
        lemma_evicted(t.fields, t.max - field_size(f));
        lemma_size_front(f, evicted(t.fields, t.max - field_size(f)));
    }
}

/// A field that fits the limit is the newest one after it was added, and the fields after it
/// are those that were the newest before, in the same order.
pub proof fn law_newest_field_comes_first(t: TableView, f: FieldView)
    requires
        field_size(f) <= t.max,
    ensures
        inserted(t, f).fields[0] == f,
        inserted(t, f).fields.len() <= t.fields.len() + 1,
        forall|i: int|
            0 < i < inserted(t, f).fields.len() ==> #[trigger] inserted(t, f).fields[i]
                == t.fields[i - 1],
{
    lemma_evicted(t.fields, t.max - field_size(f));
}

/// Where a field is found in the table: the place of the whole field and the first place of
/// its name.
pub struct DynamicMatch {
    pub exact: Option<usize>,
    pub name: Option<usize>,
}

/// Where the bytes of a field lie: its name, and its value right behind.
#[derive(Copy, Clone)]
struct Entry {
    start: u32,
    name_len: u32,
    value_len: u32,
}

impl Entry {
    spec fn data_len(self) -> nat {
        self.name_len as nat + self.value_len as nat
    }
}

/// The place `n` behind `a` in a ring of `c` places.
spec fn turned(a: int, n: int, c: int) -> int {
    if a + n >= c {
        a + n - c
    } else {
        a + n
    }
}

/// The place `n` before `a` in a ring of `c` places.
spec fn back(a: int, n: int, c: int) -> int {
    if n <= a {
        a - n
    } else {
        a - n + c
    }
}

/// How far a byte of a doubled ring of `c` places lies behind `a`.
spec fn ahead(a: int, x: int, c: int) -> int {
    let r = if x >= c {
        x - c
    } else {
        x
    };
    if r >= a {
        r - a
    } else {
        r - a + c
    }
}

/// The entry at `i`, counted from the newest.
spec fn entry_at(entries: Seq<Entry>, front: int, i: int) -> Entry {
    entries[turned(front, i, entries.len() as int)]
}

/// The bytes of the newest `n` fields.
spec fn span(entries: Seq<Entry>, front: int, n: int) -> nat
    decreases n,
{
    if n <= 0 {
        0
    } else {
        span(entries, front, n - 1) + entry_at(entries, front, n - 1).data_len()
    }
}

/// The field whose bytes lie where an entry says.
spec fn field_in(arena: Seq<u8>, e: Entry) -> FieldView {
    FieldView {
        name: arena.subrange(e.start as int, e.start + e.name_len),
        value: arena.subrange(e.start + e.name_len, e.start + e.name_len + e.value_len),
    }
}

/// The fields, newest first.
spec fn fields_in(arena: Seq<u8>, entries: Seq<Entry>, front: int, len: int) -> Seq<FieldView> {
    Seq::new(len as nat, |i: int| field_in(arena, entry_at(entries, front, i)))
}

/// Whether a ring is there twice, one after the other.
spec fn mirrored(arena: Seq<u8>, c: int) -> bool {
    &&& arena.len() == 2 * c
    &&& forall|x: int| 0 <= x < c ==> (#[trigger] arena[x]) == arena[x + c]
}

/// Whether the fields lie one after the other, the newest right before `write`.
spec fn laid(entries: Seq<Entry>, front: int, len: int, write: int, c: int) -> bool {
    forall|i: int|
        0 <= i < len ==> (#[trigger] entry_at(entries, front, i)).start == back(
            write,
            span(entries, front, i + 1) as int,
            c,
        )
}

/// A ring in which bytes were written from `a` on.
spec fn overwritten(old_arena: Seq<u8>, arena: Seq<u8>, c: int, a: int, src: Seq<u8>) -> bool {
    &&& arena.len() == old_arena.len()
    &&& forall|x: int|
        0 <= x < arena.len() ==> (#[trigger] arena[x]) == (if ahead(a, x, c) < src.len() {
            src[ahead(a, x, c)]
        } else {
            old_arena[x]
        })
}

proof fn lemma_span(entries: Seq<Entry>, front: int, m: int, n: int)
    requires
        0 <= m <= n,
    ensures
        span(entries, front, m) <= span(entries, front, n),
    decreases n,
{
    if m < n {
        lemma_span(entries, front, m, n - 1);
    }
}

/// One entry more in front of the others.
proof fn lemma_span_more(
    entries: Seq<Entry>,
    front: int,
    next: Seq<Entry>,
    next_front: int,
    n: int,
    added: nat,
)
    requires
        n >= 0,
        entry_at(next, next_front, 0).data_len() == added,
        forall|i: int|
            0 <= i < n ==> entry_at(next, next_front, i + 1) == #[trigger] entry_at(
                entries,
                front,
                i,
            ),
    ensures
        span(next, next_front, n + 1) == span(entries, front, n) + added,
    decreases n,
{
    if n > 0 {
        lemma_span_more(entries, front, next, next_front, n - 1, added);
        assert(entry_at(next, next_front, n - 1 + 1) == entry_at(entries, front, n - 1));
    } else {
        assert(span(next, next_front, 0) == 0);
    }
}

/// Bytes that lie up to `d` before `a` stay as they are when no more is written from `a` on than
/// there is room for.
proof fn lemma_untouched(
    arena: Seq<u8>,
    next: Seq<u8>,
    c: int,
    a: int,
    src: Seq<u8>,
    d: int,
    from: int,
    to: int,
)
    requires
        arena.len() == 2 * c,
        overwritten(arena, next, c, a, src),
        0 <= a < c,
        0 <= d,
        d + src.len() <= c,
        back(a, d, c) <= from <= to <= back(a, d, c) + d,
    ensures
        to <= 2 * c,
        next.subrange(from, to) == arena.subrange(from, to),
{
    assert forall|x: int| from <= x < to implies next[x] == arena[x] by {
        assert(ahead(a, x, c) == c - (d - (x - back(a, d, c))));
    }
    assert(next.subrange(from, to) =~= arena.subrange(from, to));
}

/// A doubled ring stays doubled when bytes are written into both of its halves.
proof fn lemma_stays_mirrored(arena: Seq<u8>, next: Seq<u8>, c: int, a: int, src: Seq<u8>)
    requires
        0 <= a < c,
        mirrored(arena, c),
        overwritten(arena, next, c, a, src),
    ensures
        mirrored(next, c),
{
    assert forall|x: int| 0 <= x < c implies (#[trigger] next[x]) == next[x + c] by {
        assert(ahead(a, x, c) == ahead(a, x + c, c));
        assert(arena[x] == arena[x + c]);
        assert(next[x + c] == next[x + c]);
    }
}

/// Bytes that were written are there.
proof fn lemma_written(arena: Seq<u8>, next: Seq<u8>, c: int, a: int, src: Seq<u8>, from: int)
    requires
        0 <= a < c,
        arena.len() == 2 * c,
        src.len() <= c,
        from == a || from == a + c,
        from + src.len() <= 2 * c,
        overwritten(arena, next, c, a, src),
    ensures
        next.subrange(from, from + src.len()) == src,
{
    assert forall|k: int| 0 <= k < src.len() implies next[from + k] == src[k] by {
        assert(ahead(a, from + k, c) == k);
    }
    assert(next.subrange(from, from + src.len()) =~= src);
}

/// A field that is written behind `w`, its name first, lies there.
proof fn lemma_new_field(
    arena: Seq<u8>,
    half: Seq<u8>,
    next: Seq<u8>,
    c: int,
    w: int,
    name: Seq<u8>,
    value: Seq<u8>,
)
    requires
        0 <= w < c,
        arena.len() == 2 * c,
        name.len() + value.len() <= c,
        overwritten(arena, half, c, w, name),
        overwritten(half, next, c, turned(w, name.len() as int, c), value),
    ensures
        next.subrange(w, w + name.len()) == name,
        next.subrange(w + name.len(), w + name.len() + value.len()) == value,
{
    let middle = turned(w, name.len() as int, c);
    lemma_written(arena, half, c, w, name, w);
    if middle < c {
        assert(back(middle, name.len() as int, c) == w);
        lemma_untouched(half, next, c, middle, value, name.len() as int, w, w + name.len());
        lemma_written(half, next, c, middle, value, w + name.len());
    }
}

/// A field of `d` bytes and more before `w` stays where another is written behind `w`.
proof fn lemma_other_field(
    arena: Seq<u8>,
    half: Seq<u8>,
    next: Seq<u8>,
    c: int,
    w: int,
    name: Seq<u8>,
    value: Seq<u8>,
    d: int,
    e: Entry,
)
    requires
        0 <= w < c,
        arena.len() == 2 * c,
        e.name_len + e.value_len <= d,
        d + name.len() + value.len() <= c,
        e.start == back(w, d, c),
        overwritten(arena, half, c, w, name),
        overwritten(half, next, c, turned(w, name.len() as int, c), value),
    ensures
        field_in(next, e) == field_in(arena, e),
{
    let middle = turned(w, name.len() as int, c);
    let a = e.start as int;
    let b = a + e.name_len;
    let z = b + e.value_len;
    lemma_untouched(arena, half, c, w, name, d, a, b);
    lemma_untouched(arena, half, c, w, name, d, b, z);
    assert(back(middle, d + name.len(), c) == back(w, d, c));
    lemma_untouched(half, next, c, middle, value, d + name.len(), a, b);
    lemma_untouched(half, next, c, middle, value, d + name.len(), b, z);
}

/// The fields in an arena. The bytes of each lie together: a ring of bytes is kept twice, one after
/// the other, so that no field is cut where the ring ends.
pub struct DynamicTable {
    arena: Vec<u8>,
    entries: Vec<Entry>,
    front: usize,
    len: usize,
    write: usize,
    current_size: usize,
    max_size: usize,
    capacity: usize,
}

impl DynamicTable {
    pub closed spec fn view(&self) -> TableView {
        TableView {
            fields: fields_in(self.arena@, self.entries@, self.front as int, self.len as int),
            max: self.max_size as nat,
        }
    }

    /// The ring and the entries have room for the limit, the fields lie one after the other, and
    /// they keep the limit.
    pub closed spec fn wf(&self) -> bool {
        &&& self.max_size <= self.capacity <= table_cap()
        &&& mirrored(self.arena@, self.capacity as int)
        &&& self.entries@.len() == self.capacity / OVERHEAD
        &&& self.len <= self.entries@.len()
        &&& self.front < self.entries@.len() || self.front == 0
        &&& self.write < self.capacity || self.write == 0
        &&& self.current_size == list_size(self@.fields)
        &&& self.current_size == span(self.entries@, self.front as int, self.len as int) + OVERHEAD
            * self.len
        &&& self.current_size <= self.max_size
        &&& laid(
            self.entries@,
            self.front as int,
            self.len as int,
            self.write as int,
            self.capacity as int,
        )
    }

    pub proof fn lemma_wf(&self)
        requires
            self.wf(),
        ensures
            self@.max <= table_cap(),
            table_inv(self@),
    {
    }

    pub fn new(max_size: usize) -> (r: Self)
        requires
            max_size <= table_cap(),
        ensures
            r.wf(),
            r@ == (TableView { fields: Seq::empty(), max: max_size as nat }),
    {
        Self::blank(max_size)
    }

    /// A table with a ring for `max_size` bytes.
    fn blank(max_size: usize) -> (r: Self)
        requires
            max_size <= table_cap(),
        ensures
            r.wf(),
            r.capacity == max_size,
            r@ == (TableView { fields: Seq::empty(), max: max_size as nat }),
    {
        let arena: Vec<u8> = vec![0u8; max_size * 2];
        let blank = Entry { start: 0, name_len: 0, value_len: 0 };
        let entries: Vec<Entry> = vec![blank; max_size / OVERHEAD];
        let r = DynamicTable {
            arena,
            entries,
            front: 0,
            len: 0,
            write: 0,
            current_size: 0,
            max_size,
            capacity: max_size,
        };
        assert(r@.fields =~= Seq::<FieldView>::empty());
        r
    }

    pub fn len(&self) -> (r: usize)
        ensures
            r == self@.fields.len(),
    {
        self.len
    }

    pub fn current_size(&self) -> (r: usize)
        requires
            self.wf(),
        ensures
            r == list_size(self@.fields),
            r <= self@.max,
    {
        self.current_size
    }

    pub fn max_size(&self) -> (r: usize)
        requires
            self.wf(),
        ensures
            r == self@.max,
            r <= table_cap(),
    {
        self.max_size
    }

    /// Sets the limit and evicts what exceeds it.
    pub fn set_max(&mut self, max: usize)
        requires
            old(self).wf(),
            max <= table_cap(),
        ensures
            final(self).wf(),
            final(self)@ == resized(old(self)@, max as nat),
    {
        if max > self.capacity {
            self.grow(max);
        }
        proof {
            lemma_evicted(self@.fields, max as int);
        }
        let ghost at = *self;
        self.evict_to(max);
        self.max_size = max;
        assert(self@.fields =~= evicted(at@.fields, max as int));
    }

    /// Evicts the oldest fields until the others count for `room` at most.
    fn evict_to(&mut self, room: usize)
        requires
            old(self).wf(),
        ensures
            final(self).wf(),
            final(self).max_size == old(self).max_size,
            final(self).capacity == old(self).capacity,
            final(self)@.fields == evicted(old(self)@.fields, room as int),
    {
        while self.len != 0 && self.current_size > room
            invariant
                self.wf(),
                self.max_size == old(self).max_size,
                self.capacity == old(self).capacity,
                evicted(self@.fields, room as int) == evicted(old(self)@.fields, room as int),
            decreases self.len,
        {
            let ghost before = *self;
            let index: usize = Self::advance(self.front, self.len - 1, self.entries.len());
            let entry: Entry = self.entries[index];
            proof {
                assert(entry == entry_at(self.entries@, self.front as int, self.len - 1));
                self.lemma_bounds(self.len - 1);
            }
            let size: usize = entry.name_len as usize + entry.value_len as usize + OVERHEAD;
            self.current_size = self.current_size - size;
            self.len = self.len - 1;
            proof {
                assert(self@.fields =~= before@.fields.drop_last());
                assert(field_size(before@.fields.last()) == size);
            }
        }
        if self.len == 0 {
            let ghost before = self@.fields;
            self.front = 0;
            assert(self@.fields =~= before);
        }
    }

    /// Where the bytes of a field lie.
    proof fn lemma_bounds(&self, i: int)
        requires
            self.wf(),
            0 <= i < self.len,
        ensures
            0 <= turned(self.front as int, i, self.entries@.len() as int) < self.entries@.len(),
            ({
                let e = entry_at(self.entries@, self.front as int, i);
                &&& e.start + e.data_len() <= 2 * self.capacity
                &&& e.data_len() <= span(self.entries@, self.front as int, i + 1) <= span(
                    self.entries@,
                    self.front as int,
                    self.len as int,
                )
                &&& span(self.entries@, self.front as int, self.len as int) + OVERHEAD * self.len
                    <= self.max_size
                &&& field_size(self@.fields[i]) == e.data_len() + OVERHEAD
            }),
    {
        lemma_span(self.entries@, self.front as int, i + 1, self.len as int);
        let e = entry_at(self.entries@, self.front as int, i);
        assert(span(self.entries@, self.front as int, i + 1) == span(
            self.entries@,
            self.front as int,
            i,
        ) + e.data_len());
    }

    /// Removes all fields.
    pub fn clear(&mut self)
        requires
            old(self).wf(),
        ensures
            final(self).wf(),
            final(self)@ == (TableView { fields: Seq::empty(), max: old(self)@.max }),
    {
        self.front = 0;
        self.len = 0;
        self.write = 0;
        self.current_size = 0;
        assert(self@.fields =~= Seq::<FieldView>::empty());
    }

    pub fn insert(&mut self, name: &[u8], value: &[u8])
        requires
            old(self).wf(),
        ensures
            final(self).wf(),
            final(self)@ == inserted(old(self)@, FieldView { name: name@, value: value@ }),
    {
        let ghost f = FieldView { name: name@, value: value@ };
        let fits = match name.len().checked_add(value.len()) {
            None => false,
            Some(len) => match len.checked_add(OVERHEAD) {
                None => false,
                Some(size) => size <= self.max_size,
            },
        };
        if !fits {
            self.clear();
            return;
        }
        let size: usize = name.len() + value.len() + OVERHEAD;
        let ghost before = self@;
        proof {
            lemma_evicted(before.fields, before.max - size);
        }
        self.evict_to(self.max_size - size);
        self.put(name, value);
        assert(self@.fields =~= seq![f] + evicted(before.fields, before.max - size));
    }

    /// Puts a field for which there is room in front of the others.
    fn put(&mut self, name: &[u8], value: &[u8])
        requires
            old(self).wf(),
            list_size(old(self)@.fields) + name@.len() + value@.len() + OVERHEAD <= old(self)@.max,
        ensures
            final(self).wf(),
            final(self).max_size == old(self).max_size,
            final(self).capacity == old(self).capacity,
            final(self)@.fields == seq![FieldView { name: name@, value: value@ }]
                + old(self)@.fields,
    {
        let ghost before = *self;
        let ghost f = FieldView { name: name@, value: value@ };
        let ghost c = self.capacity as int;
        let start: usize = self.write;
        Self::write_mirrored(&mut self.arena, self.capacity, start, name);
        let ghost half = self.arena@;
        let middle: usize = Self::advance(start, name.len(), self.capacity);
        Self::write_mirrored(&mut self.arena, self.capacity, middle, value);
        self.write = Self::advance(middle, value.len(), self.capacity);
        self.front = if self.len == 0 {
            0
        } else if self.front == 0 {
            self.entries.len() - 1
        } else {
            self.front - 1
        };
        let entry = Entry {
            start: start as u32,
            name_len: name.len() as u32,
            value_len: value.len() as u32,
        };
        proof {
            assert(self.len < self.entries@.len()) by (nonlinear_arith)
                requires
                    before.current_size == span(before.entries@, before.front as int, before.len as int)
                        + OVERHEAD * before.len,
                    before.current_size + OVERHEAD <= c,
                    self.entries@.len() == c / (OVERHEAD as int),
                    self.len == before.len,
                    OVERHEAD == 32,
            ;
        }
        self.entries.set(self.front, entry);
        self.len = self.len + 1;
        self.current_size = self.current_size + name.len() + value.len() + OVERHEAD;
        proof {
            before.lemma_put(*self, half, middle as int, name@, value@);
        }
    }

    /// What comes of putting a field in front.
    #[verifier::spinoff_prover]
    #[verifier::rlimit(30)]
    proof fn lemma_put(
        self,
        next: DynamicTable,
        half: Seq<u8>,
        middle: int,
        name: Seq<u8>,
        value: Seq<u8>,
    )
        requires
            self.wf(),
            self.len < self.entries@.len(),
            list_size(self@.fields) + name.len() + value.len() + OVERHEAD <= self.max_size,
            overwritten(self.arena@, half, self.capacity as int, self.write as int, name),
            middle == turned(self.write as int, name.len() as int, self.capacity as int),
            overwritten(half, next.arena@, self.capacity as int, middle, value),
            next.write == turned(middle, value.len() as int, self.capacity as int),
            next.capacity == self.capacity,
            next.max_size == self.max_size,
            next.len == self.len + 1,
            next.current_size == self.current_size + name.len() + value.len() + OVERHEAD,
            next.front == (if self.len == 0 {
                0
            } else if self.front == 0 {
                self.entries@.len() - 1
            } else {
                self.front - 1
            }),
            next.entries@ == self.entries@.update(
                next.front as int,
                Entry {
                    start: self.write as u32,
                    name_len: name.len() as u32,
                    value_len: value.len() as u32,
                },
            ),
        ensures
            next.wf(),
            next@.fields == seq![FieldView { name, value }] + self@.fields,
    {
        let c = self.capacity as int;
        let n = name.len() + value.len();
        let old_front = self.front as int;
        let front = next.front as int;
        let len = self.len as int;
        let f = FieldView { name, value };
        assert(c > 0);
        assert(forall|i: int|
            0 <= i < len ==> turned(front, i + 1, next.entries@.len() as int) == turned(
                old_front,
                i,
                self.entries@.len() as int,
            ) && turned(front, i + 1, next.entries@.len() as int) != front);
        assert forall|i: int| 0 <= i < len implies entry_at(next.entries@, front, i + 1)
            == #[trigger] entry_at(self.entries@, old_front, i) by {
            assert(turned(front, i + 1, next.entries@.len() as int) == turned(
                old_front,
                i,
                self.entries@.len() as int,
            ));
        }
        let first = entry_at(next.entries@, front, 0);
        assert(first.start == self.write && first.name_len == name.len() && first.value_len
            == value.len());
        let total = span(self.entries@, old_front, len) as int;
        assert(total + n <= c);
        let w = self.write as int;
        lemma_stays_mirrored(self.arena@, half, c, w, name);
        lemma_stays_mirrored(half, next.arena@, c, middle, value);
        lemma_new_field(self.arena@, half, next.arena@, c, w, name, value);
        assert(field_in(next.arena@, first) =~= f);
        assert forall|i: int| 0 <= i < len implies field_in(
            next.arena@,
            entry_at(next.entries@, front, i + 1),
        ) == #[trigger] field_in(self.arena@, entry_at(self.entries@, old_front, i)) by {
            self.lemma_bounds(i);
            lemma_other_field(
                self.arena@,
                half,
                next.arena@,
                c,
                w,
                name,
                value,
                span(self.entries@, old_front, i + 1) as int,
                entry_at(self.entries@, old_front, i),
            );
        }
        assert(next@.fields =~= seq![f] + self@.fields);
        lemma_size_front(f, self@.fields);
        lemma_span_more(self.entries@, old_front, next.entries@, front, len, n);
        assert forall|i: int| 0 <= i < next.len implies (#[trigger] entry_at(
            next.entries@,
            front,
            i,
        )).start == back(next.write as int, span(next.entries@, front, i + 1) as int, c) by {
            if i > 0 {
                lemma_span_more(self.entries@, old_front, next.entries@, front, i, n);
                lemma_span(self.entries@, old_front, i, len);
                assert(entry_at(next.entries@, front, i - 1 + 1) == entry_at(
                    self.entries@,
                    old_front,
                    i - 1,
                ));
                assert(span(self.entries@, old_front, i - 1 + 1) == span(
                    self.entries@,
                    old_front,
                    i,
                ));
            } else {
                lemma_span_more(self.entries@, old_front, next.entries@, front, 0, n);
                assert(span(self.entries@, old_front, 0) == 0);
            }
        }
    }

    /// Moves the fields into a larger ring, the oldest first.
    fn grow(&mut self, capacity: usize)
        requires
            old(self).wf(),
            old(self).capacity < capacity <= table_cap(),
        ensures
            final(self).wf(),
            final(self).capacity == capacity,
            final(self)@ == old(self)@,
    {
        let mut next = DynamicTable::blank(capacity);
        let ghost all = self@.fields;
        let mut index: usize = self.len;
        assert(all.skip(all.len() as int) =~= Seq::<FieldView>::empty());
        while index > 0
            invariant
                self.wf(),
                *self == *old(self),
                next.wf(),
                next.capacity == capacity,
                next.max_size == capacity,
                old(self).capacity < capacity,
                all == self@.fields,
                index <= self.len,
                next@.fields == all.skip(index as int),
            decreases index,
        {
            index = index - 1;
            if let Some((name, value)) = self.get(index) {
                proof {
                    lemma_size_back(all, index as int);
                    lemma_size_front(all[index as int], all.skip(index + 1));
                    assert(seq![all[index as int]] + all.skip(index + 1) =~= all.skip(
                        index as int,
                    ));
                }
                next.put(name, value);
            }
        }
        assert(all.skip(0) =~= all);
        next.max_size = self.max_size;
        std::mem::swap(self, &mut next);
    }

    /// Writes bytes into a ring that is kept twice.
    fn write_mirrored(arena: &mut Vec<u8>, capacity: usize, start: usize, src: &[u8])
        requires
            old(arena)@.len() == 2 * capacity,
            capacity <= table_cap(),
            start < capacity || start == 0,
            src@.len() <= capacity,
        ensures
            overwritten(old(arena)@, final(arena)@, capacity as int, start as int, src@),
    {
        let ghost before = arena@;
        let ghost c = capacity as int;
        let mut k: usize = 0;
        assert(src@.subrange(0, 0).len() == 0);
        while k < src.len()
            invariant
                before == old(arena)@,
                before.len() == 2 * capacity,
                capacity <= table_cap(),
                c == capacity,
                start < capacity || start == 0,
                src@.len() <= capacity,
                k <= src@.len(),
                overwritten(before, arena@, c, start as int, src@.subrange(0, k as int)),
            decreases src@.len() - k,
        {
            let place: usize = Self::advance(start, k, capacity);
            let ghost at = arena@;
            arena.set(place, src[k]);
            arena.set(place + capacity, src[k]);
            proof {
                assert forall|x: int| 0 <= x < arena@.len() implies (#[trigger] arena@[x]) == (
                if ahead(start as int, x, c) < k + 1 {
                    src@.subrange(0, k + 1)[ahead(start as int, x, c)]
                } else {
                    before[x]
                }) by {
                    let d = ahead(start as int, x, c);
                    assert(d == k <==> (x == place || x == place + capacity));
                    assert(at[x] == (if d < k {
                        src@.subrange(0, k as int)[d]
                    } else {
                        before[x]
                    }));
                }
            }
            k = k + 1;
        }
        assert(src@.subrange(0, src@.len() as int) =~= src@);
    }

    /// The place `amount` behind `index` in a ring.
    fn advance(index: usize, amount: usize, capacity: usize) -> (r: usize)
        requires
            index < capacity || index == 0,
            amount <= capacity <= table_cap(),
        ensures
            r == (if capacity == 0 {
                0
            } else {
                turned(index as int, amount as int, capacity as int)
            }),
            r < capacity || r == 0,
    {
        if capacity == 0 {
            return 0;
        }
        let next: usize = index + amount;
        if next >= capacity {
            next - capacity
        } else {
            next
        }
    }

    /// The field at `index`, counted from the newest.
    pub fn get(&self, index: usize) -> (r: Option<(&[u8], &[u8])>)
        requires
            self.wf(),
        ensures
            r is Some <==> index < self@.fields.len(),
            r matches Some((name, value)) ==> self@.fields[index as int] == (FieldView {
                name: name@,
                value: value@,
            }),
    {
        if index >= self.len {
            return None;
        }
        proof {
            self.lemma_bounds(index as int);
        }
        let entry: Entry = self.entries[Self::advance(self.front, index, self.entries.len())];
        let start: usize = entry.start as usize;
        let middle: usize = start + entry.name_len as usize;
        let end: usize = middle + entry.value_len as usize;
        let name: &[u8] = vstd::slice::slice_subrange(self.arena.as_slice(), start, middle);
        let value: &[u8] = vstd::slice::slice_subrange(self.arena.as_slice(), middle, end);
        assert(self@.fields[index as int] =~= FieldView { name: name@, value: value@ });
        Some((name, value))
    }

    /// The first place of the field, and of its name.
    pub fn lookup(&self, name: &[u8], value: &[u8]) -> (r: DynamicMatch)
        requires
            self.wf(),
        ensures
            find_field(self@.fields, FieldView { name: name@, value: value@ }, 0) == (
            match r.exact {
                Some(i) => Some(i as int),
                None => None,
            }),
            find_name(self@.fields, name@, 0) == (match r.name {
                Some(i) => Some(i as int),
                None => None,
            }),
            r.exact matches Some(i) ==> i < self@.fields.len(),
            r.name matches Some(i) ==> i < self@.fields.len(),
    {
        DynamicMatch { exact: self.find(name, value), name: self.find_name(name) }
    }

    fn find(&self, name: &[u8], value: &[u8]) -> (r: Option<usize>)
        requires
            self.wf(),
        ensures
            find_field(self@.fields, FieldView { name: name@, value: value@ }, 0) == (match r {
                Some(i) => Some(i as int),
                None => None,
            }),
            r matches Some(i) ==> i < self@.fields.len(),
    {
        let ghost f = FieldView { name: name@, value: value@ };
        let mut i: usize = 0;
        while i < self.len
            invariant
                self.wf(),
                f == (FieldView { name: name@, value: value@ }),
                i <= self@.fields.len(),
                self.len == self@.fields.len(),
                find_field(self@.fields, f, 0) == find_field(self@.fields, f, i as int),
            decreases self.len - i,
        {
            if let Some((held_name, held_value)) = self.get(i) {
                if equal(held_name, name) && equal(held_value, value) {
                    assert(self@.fields[i as int] =~= f);
                    return Some(i);
                }
            }
            i = i + 1;
        }
        None
    }

    fn find_name(&self, name: &[u8]) -> (r: Option<usize>)
        requires
            self.wf(),
        ensures
            find_name(self@.fields, name@, 0) == (match r {
                Some(i) => Some(i as int),
                None => None,
            }),
            r matches Some(i) ==> i < self@.fields.len(),
    {
        let mut i: usize = 0;
        while i < self.len
            invariant
                self.wf(),
                i <= self@.fields.len(),
                self.len == self@.fields.len(),
                find_name(self@.fields, name@, 0) == find_name(self@.fields, name@, i as int),
            decreases self.len - i,
        {
            if let Some((held_name, _)) = self.get(i) {
                if equal(held_name, name) {
                    return Some(i);
                }
            }
            i = i + 1;
        }
        None
    }
}

} // verus!
