//! Bounded queues, tables, byte rings and pools.
//!
//! Each type here holds a collection of the `o3` crate next to a ghost copy of what it
//! holds. The functions that call into `o3` are believed, not proved: their contracts say
//! what the call does to the contents. Nothing else touches the collection.

use o3::buffer::{
    ByteRing, Bytes, PoolLayoutError, Pooled, Retained, SegmentQueue, SharedPool, SharedPoolPlan,
};
use o3::collections::{FixedHashTable, FixedQueue, Slab, SlabKey};
use vstd::prelude::*;

verus! {

#[verifier::external_type_specification]
#[verifier::external_body]
#[verifier::reject_recursive_types(T)]
pub struct ExFixedQueue<T>(FixedQueue<T>);

#[verifier::external_type_specification]
#[verifier::external_body]
#[verifier::reject_recursive_types(V)]
pub struct ExFixedHashTable<V>(FixedHashTable<V>);

#[verifier::external_type_specification]
#[verifier::external_body]
pub struct ExByteRing(ByteRing);

#[verifier::external_type_specification]
#[verifier::external_body]
#[verifier::reject_recursive_types(T)]
pub struct ExSegmentQueue<T>(SegmentQueue<T>);

#[verifier::external_type_specification]
#[verifier::external_body]
#[verifier::reject_recursive_types(S)]
pub struct ExBytes<S>(Bytes<S>);

#[verifier::external_type_specification]
#[verifier::external_body]
pub struct ExRetained(Retained);

#[verifier::external_type_specification]
#[verifier::external_body]
pub struct ExPooled(Pooled);

#[verifier::external_type_specification]
#[verifier::external_body]
pub struct ExSharedPoolPlan(SharedPoolPlan);

/// A queue with a fixed capacity.
#[verifier::reject_recursive_types(T)]
pub struct Queue<T> {
    inner: FixedQueue<T>,
    items: Ghost<Seq<T>>,
    limit: Ghost<nat>,
}

impl<T> Queue<T> {
    /// The items, the first one first.
    pub closed spec fn items(&self) -> Seq<T> {
        self.items@
    }

    /// How many items the queue can hold.
    pub closed spec fn limit(&self) -> nat {
        self.limit@
    }

    /// An empty queue for `capacity` items.
    ///
    /// `o3::collections::FixedQueue::with_capacity`: makes an empty queue that holds exactly
    /// `capacity` items. It panics only where the items would not fit into the address space, which
    /// with addresses of 64 bits does not happen for the capacities that are let in.
    #[verifier::external_body]
    pub(crate) fn with_capacity(capacity: usize) -> (r: Self)
        requires
            capacity <= u32::MAX,
        ensures
            r.items() == Seq::<T>::empty(),
            r.limit() == capacity,
    {
        Queue {
            inner: FixedQueue::with_capacity(capacity),
            items: Ghost(Seq::empty()),
            limit: Ghost(capacity as nat),
        }
    }

    /// `o3::collections::FixedQueue::push_back`: appends a value, or hands it back when the
    /// queue is full.
    #[verifier::external_body]
    pub(crate) fn push_back(&mut self, value: T) -> (r: Result<(), T>)
        ensures
            final(self).limit() == old(self).limit(),
            old(self).items().len() < old(self).limit() ==> r is Ok && final(self).items()
                == old(self).items().push(value),
            old(self).items().len() >= old(self).limit() ==> (r matches Err(v) && v == value)
                && final(self).items() == old(self).items(),
    {
        self.inner.push_back(value)
    }

    /// `o3::collections::FixedQueue::pop_front`: removes the first item, if there is one.
    #[verifier::external_body]
    pub(crate) fn pop_front(&mut self) -> (r: Option<T>)
        ensures
            final(self).limit() == old(self).limit(),
            old(self).items().len() == 0 ==> r is None && final(self).items() == old(self).items(),
            old(self).items().len() > 0 ==> r == Some(old(self).items()[0])
                && final(self).items() == old(self).items().subrange(
                1,
                old(self).items().len() as int,
            ),
    {
        self.inner.pop_front()
    }

    /// `o3::collections::FixedQueue::get`: the item at `index`, counted from the front.
    #[verifier::external_body]
    pub(crate) fn get(&self, index: usize) -> (r: Option<&T>)
        ensures
            r == (if index < self.items().len() {
                Some(&self.items()[index as int])
            } else {
                None
            }),
    {
        self.inner.get(index)
    }

    /// `o3::collections::FixedQueue::clear`: removes all items.
    #[verifier::external_body]
    pub(crate) fn clear(&mut self)
        ensures
            final(self).items() == Seq::<T>::empty(),
            final(self).limit() == old(self).limit(),
    {
        self.inner.clear();
    }

    /// `o3::collections::FixedQueue::len`: the number of items.
    #[verifier::external_body]
    pub(crate) fn len(&self) -> (r: usize)
        ensures
            r == self.items().len(),
            r <= self.limit(),
    {
        self.inner.len()
    }

    /// `o3::collections::FixedQueue::capacity`: how many items the queue can hold.
    #[verifier::external_body]
    pub(crate) fn capacity(&self) -> (r: usize)
        ensures
            r == self.limit(),
    {
        self.inner.capacity()
    }

    pub(crate) fn is_full(&self) -> (r: bool)
        ensures
            r == (self.items().len() == self.limit()),
    {
        self.len() == self.capacity()
    }

    pub(crate) fn is_empty(&self) -> (r: bool)
        ensures
            r == (self.items().len() == 0),
    {
        self.len() == 0
    }
}

/// Whether two numbers differ.
fn differ(a: u32, b: u32) -> (r: bool)
    ensures
        r == (a != b),
{
    a != b
}

/// Numbers without those that equal `value`, in the same order.
pub open spec fn others(items: Seq<u32>, value: u32) -> Seq<u32> {
    items.filter(|item: u32| item != value)
}

/// Taking numbers out makes a list no longer.
pub proof fn lemma_others(items: Seq<u32>, value: u32)
    ensures
        others(items, value).len() <= items.len(),
{
    items.lemma_filter_len(|item: u32| item != value);
}

impl Queue<u32> {
    /// `o3::collections::FixedQueue::retain`: removes the items that equal `value` and keeps the
    /// rest in order.
    #[verifier::external_body]
    pub(crate) fn remove_value(&mut self, value: u32)
        ensures
            final(self).items() == others(old(self).items(), value),
            final(self).limit() == old(self).limit(),
    {
        self.inner.retain(|item| differ(*item, value))
    }

    pub(crate) fn contains(&self, value: u32) -> (r: bool)
        ensures
            r == self.items().contains(value),
    {
        let mut i: usize = 0;
        let len: usize = self.len();
        while i < len
            invariant
                i <= len,
                len == self.items().len(),
                forall|k: int| 0 <= k < i ==> self.items()[k] != value,
            decreases len - i,
        {
            if let Some(item) = self.get(i) {
                if *item == value {
                    assert(self.items()[i as int] == value);
                    return true;
                }
            }
            i = i + 1;
        }
        false
    }
}

/// Whether two numbers are the same.
fn same(a: u32, b: u32) -> (r: bool)
    ensures
        r == (a == b),
{
    a == b
}

/// No entries at all.
pub open spec fn no_entries<V>() -> Map<u32, V> {
    Map::empty()
}

/// A table with a fixed capacity whose entries have numbers.
#[verifier::reject_recursive_types(V)]
pub struct Table<V> {
    inner: FixedHashTable<(u32, V)>,
    entries: Ghost<Map<u32, V>>,
    limit: Ghost<nat>,
}

impl<V> Table<V> {
    /// The entries by number.
    pub closed spec fn entries(&self) -> Map<u32, V> {
        self.entries@
    }

    /// How many entries the table can hold.
    pub closed spec fn limit(&self) -> nat {
        self.limit@
    }

    /// `o3::collections::FixedHashTable::with_capacity`: makes an empty table that holds
    /// exactly `capacity` entries. It panics only where the entries would not fit into the
    /// address space, which with addresses of 64 bits does not happen for the capacities that
    /// are let in.
    #[verifier::external_body]
    pub(crate) fn with_capacity(capacity: usize) -> (r: Self)
        requires
            capacity <= u32::MAX,
        ensures
            r.entries() == no_entries::<V>(),
            r.limit() == capacity,
    {
        Table {
            inner: FixedHashTable::with_capacity(capacity),
            entries: Ghost(Map::empty()),
            limit: Ghost(capacity as nat),
        }
    }

    /// `o3::collections::FixedHashTable::get`: the entry with a number. The number is its own
    /// hash, and an entry matches when its number is the same.
    #[verifier::external_body]
    pub(crate) fn get(&self, id: u32) -> (r: Option<&V>)
        ensures
            r == (if self.entries().contains_key(id) {
                Some(&self.entries()[id])
            } else {
                None
            }),
    {
        self.inner.get(id as u64, |entry| same(entry.0, id)).map(|entry| &entry.1)
    }

    /// `o3::collections::FixedHashTable::get_mut`: the entry with a number, for change.
    #[verifier::external_body]
    pub(crate) fn get_mut(&mut self, id: u32) -> (r: Option<&mut V>)
        ensures
            final(self).limit() == old(self).limit(),
            match r {
                Some(entry) => old(self).entries().contains_key(id) && *entry
                    == old(self).entries()[id] && final(self).entries()
                    == old(self).entries().insert(id, *final(entry)),
                None => !old(self).entries().contains_key(id) && final(self).entries()
                    == old(self).entries(),
            },
    {
        self.inner.get_mut(id as u64, |entry| same(entry.0, id)).map(|entry| &mut entry.1)
    }

    /// `o3::collections::FixedHashTable::try_insert`: adds an entry under a number that has
    /// none, or hands it back when the number is taken or the table is full.
    #[verifier::external_body]
    pub(crate) fn try_insert(&mut self, id: u32, value: V) -> (r: Result<(), V>)
        ensures
            final(self).limit() == old(self).limit(),
            !old(self).entries().contains_key(id) && old(self).entries().len() < old(self).limit()
                ==> r is Ok && final(self).entries() == old(self).entries().insert(id, value),
            old(self).entries().contains_key(id) || old(self).entries().len() >= old(self).limit()
                ==> (r matches Err(v) && v == value) && final(self).entries()
                == old(self).entries(),
    {
        self.inner.try_insert(id as u64, (id, value), |entry| same(entry.0, id)).map_err(
            |entry| entry.1,
        )
    }

    /// `o3::collections::FixedHashTable::remove`: removes the entry with a number, if there
    /// is one.
    #[verifier::external_body]
    pub(crate) fn remove(&mut self, id: u32) -> (r: Option<V>)
        ensures
            final(self).limit() == old(self).limit(),
            r == (if old(self).entries().contains_key(id) {
                Some(old(self).entries()[id])
            } else {
                None
            }),
            final(self).entries() == old(self).entries().remove(id),
    {
        self.inner.remove(id as u64, |entry| same(entry.0, id)).map(|entry| entry.1)
    }

    /// `o3::collections::FixedHashTable::clear`: removes all entries.
    #[verifier::external_body]
    pub(crate) fn clear(&mut self)
        ensures
            final(self).entries() == no_entries::<V>(),
            final(self).limit() == old(self).limit(),
    {
        self.inner.clear();
    }

    /// `o3::collections::FixedHashTable::len`: the number of entries.
    #[verifier::external_body]
    pub(crate) fn len(&self) -> (r: usize)
        ensures
            r == self.entries().len(),
            r <= self.limit(),
    {
        self.inner.len()
    }

    /// `o3::collections::FixedHashTable::capacity`: how many entries the table can hold.
    #[verifier::external_body]
    pub(crate) fn capacity(&self) -> (r: usize)
        ensures
            r == self.limit(),
    {
        self.inner.capacity()
    }

    /// `o3::collections::FixedHashTable::values`: the numbers of all entries, each once and in
    /// no particular order.
    #[verifier::external_body]
    pub(crate) fn numbers(&self) -> (r: Vec<u32>)
        ensures
            r@.no_duplicates(),
            forall|id: u32| r@.contains(id) <==> self.entries().contains_key(id),
    {
        self.inner.values().map(|entry| entry.0).collect()
    }
}

/// The hash of a pair of numbers.
pub open spec fn pair_hash(a: u64, b: u32) -> u64 {
    (a ^ (b as u64).wrapping_mul(0x9E37_79B9)).wrapping_mul(0x9E37_79B9_7F4A_7C15)
}

/// No pairs at all.
pub open spec fn no_pairs() -> Map<(u64, u32), u32> {
    Map::empty()
}

/// Whether an entry is that of a pair of numbers.
fn same_pair(entry: &(u64, u32, u32), a: u64, b: u32) -> (r: bool)
    ensures
        r == (entry.0 == a && entry.1 == b),
{
    entry.0 == a && entry.1 == b
}

/// A table with a fixed capacity from pairs of numbers to numbers.
pub struct PairTable {
    inner: FixedHashTable<(u64, u32, u32)>,
    entries: Ghost<Map<(u64, u32), u32>>,
    limit: Ghost<nat>,
}

impl PairTable {
    /// The entries by pair.
    pub closed spec fn entries(&self) -> Map<(u64, u32), u32> {
        self.entries@
    }

    /// How many entries the table can hold.
    pub closed spec fn limit(&self) -> nat {
        self.limit@
    }

    /// `o3::collections::FixedHashTable::with_capacity`: makes an empty table that holds
    /// exactly `capacity` entries. It panics only where the entries would not fit into the
    /// address space, which with addresses of 64 bits does not happen for the capacities that
    /// are let in.
    #[verifier::external_body]
    pub(crate) fn with_capacity(capacity: usize) -> (r: Self)
        requires
            capacity <= u32::MAX,
        ensures
            r.entries() == no_pairs(),
            r.limit() == capacity,
    {
        PairTable {
            inner: FixedHashTable::with_capacity(capacity),
            entries: Ghost(Map::empty()),
            limit: Ghost(capacity as nat),
        }
    }

    /// `o3::collections::FixedHashTable::get`: what stands under a pair. It is looked for under
    /// the hash of the pair, and an entry matches when its pair is the same.
    #[verifier::external_body]
    pub(crate) fn get(&self, hash: u64, a: u64, b: u32) -> (r: Option<u32>)
        requires
            hash == pair_hash(a, b),
        ensures
            r == (if self.entries().contains_key((a, b)) {
                Some(self.entries()[(a, b)])
            } else {
                None
            }),
    {
        self.inner.get(hash, |entry| same_pair(entry, a, b)).map(|entry| entry.2)
    }

    /// `o3::collections::FixedHashTable::try_insert`: puts a number under a pair that has none;
    /// the result says whether the pair was free and the table not full.
    #[verifier::external_body]
    pub(crate) fn try_insert(&mut self, hash: u64, a: u64, b: u32, value: u32) -> (r: bool)
        requires
            hash == pair_hash(a, b),
        ensures
            final(self).limit() == old(self).limit(),
            r == (!old(self).entries().contains_key((a, b)) && old(self).entries().len() < old(
                self,
            ).limit()),
            final(self).entries() == (if r {
                old(self).entries().insert((a, b), value)
            } else {
                old(self).entries()
            }),
    {
        self.inner.try_insert(hash, (a, b, value), |entry| same_pair(entry, a, b)).is_ok()
    }

    /// `o3::collections::FixedHashTable::remove`: takes away what stands under a pair.
    #[verifier::external_body]
    pub(crate) fn remove(&mut self, hash: u64, a: u64, b: u32) -> (r: Option<u32>)
        requires
            hash == pair_hash(a, b),
        ensures
            final(self).limit() == old(self).limit(),
            r == (if old(self).entries().contains_key((a, b)) {
                Some(old(self).entries()[(a, b)])
            } else {
                None
            }),
            final(self).entries() == old(self).entries().remove((a, b)),
    {
        self.inner.remove(hash, |entry| same_pair(entry, a, b)).map(|entry| entry.2)
    }

    /// `o3::collections::FixedHashTable::is_empty`: whether there are no entries.
    #[verifier::external_body]
    pub(crate) fn is_empty(&self) -> (r: bool)
        ensures
            r == (self.entries() == no_pairs()),
    {
        self.inner.is_empty()
    }
}

/// A ring of bytes with a fixed capacity.
pub struct Ring {
    inner: ByteRing,
    bytes: Ghost<Seq<u8>>,
    limit: Ghost<nat>,
    head: Ghost<nat>,
}

/// Where a ring of `limit` bytes goes on, `n` bytes after `head`.
pub open spec fn wrapped(head: nat, n: int, limit: nat) -> nat {
    if head + n >= limit {
        (head + n - limit) as nat
    } else {
        (head + n) as nat
    }
}

impl Ring {
    /// The bytes, the first one first.
    pub closed spec fn bytes(&self) -> Seq<u8> {
        self.bytes@
    }

    /// How many bytes the ring can hold.
    pub closed spec fn limit(&self) -> nat {
        self.limit@
    }

    /// Where in the ring the first byte stands.
    pub closed spec fn head(&self) -> nat {
        self.head@
    }

    /// `o3::buffer::ByteRing::try_with_capacity`: makes an empty ring that holds exactly
    /// `capacity` bytes; none for a capacity of zero. One beyond what memory can address is
    /// left out.
    #[verifier::external_body]
    pub(crate) fn try_with_capacity(capacity: usize) -> (r: Option<Self>)
        requires
            capacity <= isize::MAX,
        ensures
            r is Some <==> capacity > 0,
            r matches Some(ring) ==> ring.bytes() == Seq::<u8>::empty() && ring.limit() == capacity
                && ring.head() == 0,
    {
        ByteRing::try_with_capacity(capacity).ok().map(
            |inner|
                Ring {
                    inner,
                    bytes: Ghost(Seq::empty()),
                    limit: Ghost(capacity as nat),
                    head: Ghost(0),
                },
        )
    }

    /// `o3::buffer::ByteRing::try_extend_from_slice`: appends all bytes, or none where they do
    /// not fit.
    #[verifier::external_body]
    pub(crate) fn try_extend(&mut self, bytes: &[u8]) -> (r: bool)
        ensures
            final(self).limit() == old(self).limit(),
            final(self).head() == old(self).head(),
            r == (old(self).bytes().len() + bytes@.len() <= old(self).limit()),
            final(self).bytes() == (if r {
                old(self).bytes() + bytes@
            } else {
                old(self).bytes()
            }),
    {
        self.inner.try_extend_from_slice(bytes).is_ok()
    }

    /// `o3::buffer::ByteRing::consume_prefix_up_to`: removes the first `requested` bytes, or
    /// all where there are fewer, and says how many. An empty ring starts over.
    #[verifier::external_body]
    pub(crate) fn consume_up_to(&mut self, requested: usize) -> (r: usize)
        ensures
            final(self).limit() == old(self).limit(),
            r == (if requested <= old(self).bytes().len() {
                requested as nat
            } else {
                old(self).bytes().len()
            }),
            final(self).bytes() == old(self).bytes().subrange(
                r as int,
                old(self).bytes().len() as int,
            ),
            final(self).head() == (if final(self).bytes().len() == 0 {
                0
            } else {
                wrapped(old(self).head(), r as int, old(self).limit())
            }),
    {
        self.inner.consume_prefix_up_to(requested)
    }

    /// `o3::buffer::ByteRing::as_slices`: the bytes in two pieces, which meet where the ring
    /// wraps.
    #[verifier::external_body]
    pub(crate) fn as_slices(&self) -> (r: (&[u8], &[u8]))
        ensures
            r.0@ + r.1@ == self.bytes(),
            r.0@.len() == (if self.bytes().len() <= self.limit() - self.head() {
                self.bytes().len() as int
            } else {
                self.limit() - self.head()
            }),
    {
        self.inner.as_slices()
    }

    /// `o3::buffer::ByteRing::len`: the number of bytes.
    #[verifier::external_body]
    pub(crate) fn len(&self) -> (r: usize)
        ensures
            r == self.bytes().len(),
            r <= self.limit(),
    {
        self.inner.len()
    }

    /// `o3::buffer::ByteRing::capacity`: how many bytes the ring can hold.
    #[verifier::external_body]
    pub(crate) fn capacity(&self) -> (r: usize)
        ensures
            r == self.limit(),
    {
        self.inner.capacity()
    }
}

/// The bytes of all chunks, one after the other.
pub open spec fn joined(chunks: Seq<Seq<u8>>) -> Seq<u8>
    decreases chunks.len(),
{
    if chunks.len() == 0 {
        Seq::empty()
    } else {
        chunks[0] + joined(chunks.drop_first())
    }
}

/// The chunks without their first `n` bytes. A chunk that is used up goes.
pub open spec fn advanced(chunks: Seq<Seq<u8>>, n: int) -> Seq<Seq<u8>>
    decreases chunks.len(),
{
    if n <= 0 || chunks.len() == 0 {
        chunks
    } else if n < chunks[0].len() {
        chunks.update(0, chunks[0].subrange(n, chunks[0].len() as int))
    } else {
        advanced(chunks.drop_first(), n - chunks[0].len())
    }
}

/// Whether `len` bytes at `offset` lie within one chunk.
pub open spec fn in_one_chunk(chunks: Seq<Seq<u8>>, offset: int, len: int) -> bool
    decreases chunks.len(),
{
    if chunks.len() == 0 {
        false
    } else if offset >= chunks[0].len() {
        in_one_chunk(chunks.drop_first(), offset - chunks[0].len(), len)
    } else {
        offset + len <= chunks[0].len()
    }
}

/// Chunks of bytes, none of them empty.
pub struct Chunks {
    inner: SegmentQueue<Bytes<Retained>>,
    chunks: Ghost<Seq<Seq<u8>>>,
}

impl Chunks {
    /// The chunks, the first one first.
    pub closed spec fn chunks(&self) -> Seq<Seq<u8>> {
        self.chunks@
    }

    /// `o3::buffer::SegmentQueue::new`: no chunks.
    #[verifier::external_body]
    pub(crate) fn new() -> (r: Self)
        ensures
            r.chunks() == Seq::<Seq<u8>>::empty(),
    {
        Chunks { inner: SegmentQueue::new(), chunks: Ghost(Seq::empty()) }
    }

    /// `o3::buffer::SegmentQueue::len`: the number of bytes in all chunks.
    #[verifier::external_body]
    pub(crate) fn len(&self) -> (r: usize)
        ensures
            r == joined(self.chunks()).len(),
    {
        self.inner.len()
    }

    /// `o3::buffer::SegmentQueue::segment_count`: the number of chunks.
    #[verifier::external_body]
    pub(crate) fn chunk_count(&self) -> (r: usize)
        ensures
            r == self.chunks().len(),
    {
        self.inner.segment_count()
    }

    /// `o3::buffer::SegmentQueue::try_push_back`: appends a chunk that holds a copy of the
    /// bytes, made by `Bytes::copy_from_slice`; an empty one is dropped.
    #[verifier::external_body]
    pub(crate) fn push_copy(&mut self, bytes: &[u8]) -> (r: bool)
        requires
            joined(old(self).chunks()).len() + bytes@.len() <= usize::MAX,
        ensures
            r,
            final(self).chunks() == (if bytes@.len() == 0 {
                old(self).chunks()
            } else {
                old(self).chunks().push(bytes@)
            }),
    {
        self.inner.try_push_back(Bytes::<Retained>::copy_from_slice(bytes)).is_ok()
    }

    /// `o3::buffer::SegmentQueue::extend_range`: appends a copy of `len` bytes at `offset` to
    /// `out`, or nothing where there are fewer.
    #[verifier::external_body]
    pub(crate) fn copy_range(&self, offset: usize, len: usize, out: &mut Vec<u8>) -> (r: bool)
        ensures
            r == (offset + len <= joined(self.chunks()).len()),
            final(out)@ == (if r {
                old(out)@ + joined(self.chunks()).subrange(offset as int, offset + len)
            } else {
                old(out)@
            }),
    {
        self.inner.extend_range(0, offset, len, out)
    }

    /// `o3::buffer::SegmentQueue::contiguous_segment`: `len` bytes at `offset`, where they lie
    /// within one chunk.
    #[verifier::external_body]
    pub(crate) fn contiguous_range(&self, offset: usize, len: usize) -> (r: Option<&[u8]>)
        requires
            len > 0,
        ensures
            r is Some <==> (offset + len <= joined(self.chunks()).len() && in_one_chunk(
                self.chunks(),
                offset as int,
                len as int,
            )),
            r matches Some(s) ==> s@ == joined(self.chunks()).subrange(
                offset as int,
                offset + len,
            ),
    {
        self.inner.contiguous_segment(0, offset, len).map(|found| &found.0.as_slice()[found.1])
    }

    /// `o3::buffer::SegmentQueue::try_consume_front`: removes the first `amount` bytes, or
    /// nothing where there are fewer.
    #[verifier::external_body]
    pub(crate) fn try_consume(&mut self, amount: usize) -> (r: bool)
        ensures
            r == (amount <= joined(old(self).chunks()).len()),
            final(self).chunks() == (if r {
                advanced(old(self).chunks(), amount as int)
            } else {
                old(self).chunks()
            }),
    {
        self.inner.try_consume_front(amount)
    }
}

#[verifier::external_type_specification]
#[verifier::external_body]
#[verifier::reject_recursive_types(T)]
#[verifier::reject_recursive_types(Tag)]
pub struct ExSlab<T, Tag, const MAX: u32>(Slab<T, Tag, MAX>);

#[verifier::external_type_specification]
#[verifier::external_body]
#[verifier::reject_recursive_types(Tag)]
pub struct ExSlabKey<Tag, const MAX: u32>(SlabKey<Tag, MAX>);

/// What an item in a slab is found by.
#[derive(Copy, Clone)]
pub struct SlotKey {
    inner: SlabKey,
}

/// The room of a slab: how many items it holds, how many it can hold, and how often one was
/// taken out.
pub struct Room {
    pub held: nat,
    pub limit: nat,
    pub spent: nat,
}

impl Room {
    /// Whether there is a place for one item more. A slot is given up once it was used as often
    /// as its counter goes; until then only the number of items counts. `fresh` says whether a
    /// slab that may have given slots up still has one.
    pub open spec fn gives(self, fresh: bool) -> bool {
        self.held < self.limit && (self.spent < u32::MAX - 1 || fresh)
    }

    /// With one item more.
    pub open spec fn more(self) -> Room {
        Room { held: self.held + 1, ..self }
    }

    /// Without `n` of the items.
    pub open spec fn fewer(self, n: nat) -> Room {
        Room { held: (self.held - n) as nat, spent: self.spent + n, ..self }
    }
}

/// A slab of items.
#[verifier::reject_recursive_types(T)]
pub struct Slots<T> {
    inner: Slab<T>,
    entries: Ghost<Map<SlotKey, T>>,
    limit: Ghost<nat>,
    spent: Ghost<nat>,
}

/// A slab with nothing in it.
pub open spec fn no_slots<T>() -> Map<SlotKey, T> {
    Map::empty()
}

impl<T> Slots<T> {
    /// The items, each under its key.
    pub closed spec fn entries(&self) -> Map<SlotKey, T> {
        self.entries@
    }

    /// How many items the slab can hold.
    pub closed spec fn limit(&self) -> nat {
        self.limit@
    }

    /// How often an item was taken out.
    pub closed spec fn spent(&self) -> nat {
        self.spent@
    }

    /// The room of the slab.
    pub open spec fn room(&self) -> Room {
        Room { held: self.entries().len(), limit: self.limit(), spent: self.spent() }
    }

    /// `o3::collections::Slab::with_capacity`: makes an empty slab for up to `capacity` items;
    /// it panics where the capacity reaches `u32::MAX`.
    #[verifier::external_body]
    pub(crate) fn with_capacity(capacity: usize) -> (r: Self)
        requires
            capacity < u32::MAX,
        ensures
            r.entries() == no_slots::<T>(),
            r.limit() == capacity,
            r.spent() == 0,
    {
        Slots {
            inner: Slab::with_capacity(capacity),
            entries: Ghost(Map::empty()),
            limit: Ghost(capacity as nat),
            spent: Ghost(0),
        }
    }

    /// `o3::collections::Slab::insert`: puts an item under a key that no item has, or gives it
    /// back. It is given back where the slab is full, and where no slot is free but those that
    /// were handed out as often as their counters go, which takes `u32::MAX` removals from one
    /// slot.
    #[verifier::external_body]
    pub(crate) fn insert(&mut self, value: T) -> (r: Result<SlotKey, T>)
        ensures
            final(self).limit() == old(self).limit(),
            final(self).spent() == old(self).spent(),
            old(self).room().gives(false) ==> r is Ok,
            r is Ok ==> old(self).room().gives(true),
            match r {
                Ok(key) => !old(self).entries().contains_key(key) && final(self).entries()
                    == old(self).entries().insert(key, value) && final(self).entries().len()
                    == old(self).entries().len() + 1,
                Err(v) => v == value && final(self).entries() == old(self).entries(),
            },
    {
        match self.inner.insert(value) {
            Ok(inner) => Ok(SlotKey { inner }),
            Err(value) => Err(value),
        }
    }

    /// `o3::collections::Slab::get`: the item under a key.
    #[verifier::external_body]
    pub(crate) fn get(&self, key: SlotKey) -> (r: Option<&T>)
        ensures
            r == (if self.entries().contains_key(key) {
                Some(&self.entries()[key])
            } else {
                None
            }),
    {
        self.inner.get(key.inner)
    }

    /// `o3::collections::Slab::get_mut`: the item under a key, to be changed in place.
    #[verifier::external_body]
    pub(crate) fn get_mut(&mut self, key: SlotKey) -> (r: Option<&mut T>)
        ensures
            final(self).limit() == old(self).limit(),
            final(self).spent() == old(self).spent(),
            match r {
                Some(entry) => old(self).entries().contains_key(key) && *entry
                    == old(self).entries()[key] && final(self).entries()
                    == old(self).entries().insert(key, *final(entry)),
                None => !old(self).entries().contains_key(key) && final(self).entries()
                    == old(self).entries(),
            },
    {
        self.inner.get_mut(key.inner)
    }

    /// `o3::collections::Slab::remove`: takes out the item under a key.
    #[verifier::external_body]
    pub(crate) fn remove(&mut self, key: SlotKey) -> (r: Option<T>)
        ensures
            final(self).limit() == old(self).limit(),
            r == (if old(self).entries().contains_key(key) {
                Some(old(self).entries()[key])
            } else {
                None
            }),
            final(self).entries() == old(self).entries().remove(key),
            r is Some ==> final(self).entries().len() + 1 == old(self).entries().len(),
            final(self).spent() == old(self).spent() + (if r is Some {
                1int
            } else {
                0
            }),
    {
        self.inner.remove(key.inner)
    }
}

/// Whether there can be a pool of `slots` places of `capacity` bytes each.
pub uninterp spec fn pool_fits(slots: usize, capacity: usize) -> bool;

/// Why a pool cannot be made.
#[derive(Copy, Clone, Debug, PartialEq, Eq, Structural)]
pub enum PoolFault {
    ZeroCapacity,
    SlotOverflow,
    CapacityOverflow,
}

/// What is wrong with a pool of `slots` places of `capacity` bytes each.
pub open spec fn pool_fault(slots: usize, capacity: usize) -> Option<PoolFault> {
    if slots > u32::MAX {
        Some(PoolFault::SlotOverflow)
    } else if capacity == 0 {
        Some(PoolFault::ZeroCapacity)
    } else if !pool_fits(slots, capacity) {
        Some(PoolFault::CapacityOverflow)
    } else {
        None
    }
}

/// Whether a pool is so small that every memory can address it.
pub open spec fn is_small_pool(slots: usize, capacity: usize) -> bool {
    slots <= 0x10_0000 && 0 < capacity <= u32::MAX && slots * capacity <= 0x3fff_ffff
}

/// A place in a pool, held until it is dropped.
pub struct Permit {
    inner: Pooled,
    of: Ghost<int>,
}

impl Permit {
    /// The pool that gave the place out.
    pub closed spec fn of(&self) -> int {
        self.of@
    }
}

impl Permit {
    /// Lets others hold the place too.
    pub(crate) fn share(self) -> (r: Share)
        ensures
            r.of() == self.of(),
    {
        Share { inner: self.inner, of: self.of }
    }
}

/// A place in a pool that several may hold. It is free once all of them have dropped it, and
/// is given back to no pool.
pub struct Share {
    inner: Pooled,
    of: Ghost<int>,
}

impl Share {
    /// The pool that gave the place out.
    pub closed spec fn of(&self) -> int {
        self.of@
    }

    /// `o3::buffer::Pooled::clone`: one more hold on the same place.
    #[verifier::external_body]
    pub(crate) fn again(&self) -> (r: Self)
        ensures
            r.of() == self.of(),
    {
        Share { inner: self.inner.clone(), of: Ghost(0) }
    }
}

/// The pool that gave out a place, if there is one.
pub open spec fn pool_of(place: Option<Share>) -> Option<int> {
    match place {
        Some(share) => Some(share.of()),
        None => None,
    }
}

/// What a pool has given: how many places there are, and how many were given out and not
/// given back.
pub struct Supply {
    pub limit: nat,
    pub out: int,
}

impl Supply {
    /// Whether the next place is given: surely while fewer were given out than there are.
    /// A place that was dropped elsewhere is free again without being counted, so from then on
    /// `place` says it.
    pub open spec fn gives(self, place: bool) -> bool {
        self.out < self.limit || place
    }

    /// How many places are sure to be given.
    pub open spec fn left(self) -> nat {
        if self.out < self.limit {
            (self.limit - self.out) as nat
        } else {
            0
        }
    }

    /// After a place was given back.
    pub open spec fn back(self) -> Supply {
        Supply { out: self.out - 1, ..self }
    }

    /// After a place was asked for, and given or not.
    pub open spec fn asked(self, given: bool) -> Supply {
        Supply {
            out: if given {
                self.out + 1
            } else {
                self.out
            },
            ..self
        }
    }
}

/// The type parameter of `o3::buffer::SharedPool` is bound by a trait that the crate does not
/// export, so the pool stands behind this type.
#[verifier::external_body]
pub struct RawPool {
    inner: SharedPool,
}

/// A pool with a fixed number of places.
pub struct Pool {
    raw: RawPool,
    supply: Ghost<Supply>,
    id: Ghost<int>,
}

impl Pool {
    /// What the pool has given.
    pub closed spec fn supply(&self) -> Supply {
        self.supply@
    }

    /// Which pool this is.
    pub closed spec fn id(&self) -> int {
        self.id@
    }

    /// `o3::buffer::SharedPool::try_acquire` and `SharedLease::freeze`: takes a place. A free
    /// one is found wherever fewer are out than there are; a place that is dropped without being
    /// given back is free too, so nothing is said of the rest.
    #[verifier::external_body]
    pub(crate) fn try_acquire(&mut self) -> (r: Option<Permit>)
        ensures
            old(self).supply().out < old(self).supply().limit ==> r is Some,
            r matches Some(permit) ==> permit.of() == old(self).id(),
            final(self).supply() == old(self).supply().asked(r is Some),
            final(self).id() == old(self).id(),
    {
        self.raw.inner.try_acquire().map(|lease| Permit { inner: lease.freeze(), of: Ghost(0) })
    }

    /// Dropping `o3::buffer::Pooled`: its place, which is the only hold on it, is free again.
    #[verifier::external_body]
    pub(crate) fn give_back(&mut self, permit: Permit)
        requires
            permit.of() == old(self).id(),
        ensures
            final(self).supply() == old(self).supply().back(),
            final(self).id() == old(self).id(),
    {
        drop(permit.inner);
    }
}

/// The largest pool that may be made, checked against memory.
#[derive(Copy, Clone, Debug)]
pub struct PoolPlan {
    inner: SharedPoolPlan,
    slots: usize,
}

impl PoolPlan {
    /// The number of places.
    pub closed spec fn slots(&self) -> usize {
        self.slots
    }

    /// `o3::buffer::SharedPoolPlan::new`: accepts a pool that memory can address. It refuses
    /// numbers beyond 32 bits and places without a byte, in this order, and accepts small
    /// pools; where in between the bound lies has no statement here but the name.
    #[verifier::external_body]
    fn plan(slots: usize, capacity: usize) -> (r: Result<SharedPoolPlan, PoolFault>)
        ensures
            r is Ok <==> pool_fits(slots, capacity),
            slots > u32::MAX || capacity > u32::MAX || capacity == 0 ==> r is Err,
            r matches Err(fault) ==> pool_fault(slots, capacity) == Some(fault),
            is_small_pool(slots, capacity) ==> r is Ok,
    {
        match SharedPoolPlan::new(slots, capacity) {
            Ok(plan) => Ok(plan),
            Err(PoolLayoutError::ZeroCapacity) => Err(PoolFault::ZeroCapacity),
            Err(PoolLayoutError::SlotOverflow) => Err(PoolFault::SlotOverflow),
            Err(PoolLayoutError::CapacityOverflow) => Err(PoolFault::CapacityOverflow),
        }
    }

    /// A plan for `slots` places of `capacity` bytes each, where memory can address them.
    pub fn new(slots: usize, capacity: usize) -> (r: Result<Self, PoolFault>)
        ensures
            match r {
                Ok(plan) => pool_fault(slots, capacity) is None && plan.slots() == slots,
                Err(fault) => pool_fault(slots, capacity) == Some(fault),
            },
            is_small_pool(slots, capacity) ==> r is Ok,
    {
        match Self::plan(slots, capacity) {
            Ok(inner) => Ok(PoolPlan { inner, slots }),
            Err(fault) => Err(fault),
        }
    }

    pub fn max_slots(&self) -> (r: usize)
        ensures
            r == self.slots(),
    {
        self.slots
    }

    /// `o3::buffer::SharedPoolPlan::layout_up_to` and `SharedPool::from_layout`: makes a pool
    /// with `slots` places, or with all of the plan where it has fewer, of which none is taken.
    #[verifier::external_body]
    pub(crate) fn pool_up_to(&self, slots: usize) -> (r: Pool)
        ensures
            r.supply().limit == (if slots < self.slots() {
                slots
            } else {
                self.slots()
            }),
            r.supply().out == 0,
    {
        let raw = RawPool { inner: SharedPool::from_layout(self.inner.layout_up_to(slots)) };
        Pool { raw, supply: Ghost(Supply { limit: 0, out: 0 }), id: Ghost(0) }
    }
}

/// A place in a pool that is made larger, held until it is dropped: it stands in one of the
/// parts of the pool.
pub struct Spot {
    permit: Permit,
    part: usize,
}

impl Spot {
    /// Whether the place stands in a pool of such parts.
    pub closed spec fn within(&self, parts: Seq<int>) -> bool {
        self.part < parts.len() && self.permit.of() == parts[self.part as int]
    }

    pub proof fn lemma_within(&self, parts: Seq<int>, more: Seq<int>)
        requires
            self.within(parts),
            grows(parts, more),
        ensures
            self.within(more),
    {
    }
}

/// Whether parts were added at most.
pub open spec fn grows(parts: Seq<int>, more: Seq<int>) -> bool {
    parts.len() <= more.len() && forall|i: int| 0 <= i < parts.len() ==> parts[i] == more[i]
}

/// A pool that is made larger as places are needed, up to its plan.
pub struct GrowingPool {
    groups: Vec<Pool>,
    plan: PoolPlan,
    allocated: usize,
}

/// The number of places after the pool has grown: twice as many, or all of the plan.
pub open spec fn grown(allocated: usize, max: usize) -> usize {
    if allocated == 0 {
        if max == 0 {
            0
        } else {
            1
        }
    } else if allocated > max - allocated {
        max
    } else {
        (2 * allocated) as usize
    }
}

/// The places of several pools together.
spec fn places_of(groups: Seq<Pool>) -> nat
    decreases groups.len(),
{
    if groups.len() == 0 {
        0
    } else {
        places_of(groups.drop_last()) + groups.last().supply().limit
    }
}

/// The places that several pools have given out.
spec fn given_by(groups: Seq<Pool>) -> int
    decreases groups.len(),
{
    if groups.len() == 0 {
        0
    } else {
        given_by(groups.drop_last()) + groups.last().supply().out
    }
}

proof fn lemma_group_changed(groups: Seq<Pool>, i: int, next: Pool)
    requires
        0 <= i < groups.len(),
        next.supply().limit == groups[i].supply().limit,
    ensures
        places_of(groups.update(i, next)) == places_of(groups),
        given_by(groups.update(i, next)) == given_by(groups) + next.supply().out
            - groups[i].supply().out,
    decreases groups.len(),
{
    let after = groups.update(i, next);
    if i == groups.len() - 1 {
        assert(after.drop_last() =~= groups.drop_last());
    } else {
        assert(after.drop_last() =~= groups.drop_last().update(i, next));
        lemma_group_changed(groups.drop_last(), i, next);
    }
}

proof fn lemma_all_given(groups: Seq<Pool>)
    requires
        forall|i: int| 0 <= i < groups.len() ==> !(#[trigger] groups[i]).supply().gives(false),
    ensures
        given_by(groups) >= places_of(groups),
    decreases groups.len(),
{
    if groups.len() > 0 {
        assert forall|i: int| 0 <= i < groups.drop_last().len() implies !(#[trigger]
        groups.drop_last()[i]).supply().gives(false) by {
            assert(groups.drop_last()[i] == groups[i]);
        }
        lemma_all_given(groups.drop_last());
        assert(!groups[groups.len() - 1].supply().gives(false));
    }
}

impl GrowingPool {
    /// The number of places that were made.
    pub closed spec fn allocated(&self) -> usize {
        self.allocated
    }

    /// What the pool has given, of all the places that there can be.
    pub closed spec fn supply(&self) -> Supply {
        Supply { limit: self.plan.slots() as nat, out: given_by(self.groups@) }
    }

    /// The number of places that there can be.
    pub closed spec fn max(&self) -> usize {
        self.plan.slots()
    }

    /// The pools of which this one is made.
    pub closed spec fn parts(&self) -> Seq<int> {
        self.groups@.map_values(|p: Pool| p.id())
    }

    pub closed spec fn wf(&self) -> bool {
        &&& self.allocated <= self.plan.slots()
        &&& places_of(self.groups@) == self.allocated
    }

    /// A pool with one place for a start.
    pub fn from_plan(plan: PoolPlan) -> (r: Self)
        ensures
            r.wf(),
            r.max() == plan.slots(),
            r.allocated() == grown(0, plan.slots()),
            r.supply() == (Supply { limit: plan.slots() as nat, out: 0 }),
    {
        let mut pool = GrowingPool { groups: Vec::new(), plan, allocated: 0 };
        pool.grow();
        pool
    }

    /// Takes a place, if one is free or can be made. The pool grows by one step at most, and
    /// only where there are places left to make.
    pub fn try_acquire(&mut self) -> (r: Option<Spot>)
        requires
            old(self).wf(),
        ensures
            final(self).wf(),
            final(self).max() == old(self).max(),
            final(self).allocated() == old(self).allocated() || (old(self).allocated()
                < old(self).max() && final(self).allocated() == grown(
                old(self).allocated(),
                old(self).max(),
            )),
            old(self).supply().gives(false) ==> r is Some,
            final(self).supply() == old(self).supply().asked(r is Some),
            grows(old(self).parts(), final(self).parts()),
            r matches Some(spot) ==> spot.within(final(self).parts()),
    {
        let mut i: usize = 0;
        while i < self.groups.len()
            invariant
                self.wf(),
                i <= self.groups@.len(),
                self.plan == old(self).plan,
                self.allocated == old(self).allocated,
                given_by(self.groups@) == given_by(old(self).groups@),
                grows(old(self).parts(), self.parts()),
                forall|k: int| 0 <= k < i ==> !(#[trigger] self.groups@[k]).supply().gives(false),
            decreases self.groups@.len() - i,
        {
            let ghost before = self.groups@;
            let permit = self.groups[i].try_acquire();
            proof {
                assert(self.groups@ =~= before.update(i as int, self.groups@[i as int]));
                lemma_group_changed(before, i as int, self.groups@[i as int]);
            }
            if let Some(permit) = permit {
                return Some(Spot { permit, part: i });
            }
            i = i + 1;
        }
        proof {
            lemma_all_given(self.groups@);
        }
        if self.allocated == self.plan.max_slots() {
            return None;
        }
        self.grow();
        let last: usize = self.groups.len() - 1;
        let ghost before = self.groups@;
        let permit = self.groups[last].try_acquire();
        proof {
            assert(self.groups@ =~= before.update(last as int, self.groups@[last as int]));
            lemma_group_changed(before, last as int, self.groups@[last as int]);
        }
        match permit {
            Some(permit) => Some(Spot { permit, part: last }),
            None => None,
        }
    }

    /// Takes a place back.
    pub fn give_back(&mut self, spot: Spot)
        requires
            old(self).wf(),
            spot.within(old(self).parts()),
        ensures
            final(self).wf(),
            final(self).max() == old(self).max(),
            final(self).allocated() == old(self).allocated(),
            final(self).supply() == old(self).supply().back(),
            final(self).parts() == old(self).parts(),
    {
        let Spot { permit, part } = spot;
        let ghost before = self.groups@;
        assert(self.parts()[part as int] == before[part as int].id());
        self.groups[part].give_back(permit);
        proof {
            assert(self.groups@ =~= before.update(part as int, self.groups@[part as int]));
            lemma_group_changed(before, part as int, self.groups@[part as int]);
            assert(self.parts() =~= before.map_values(|p: Pool| p.id()));
        }
    }

    /// Makes more places.
    fn grow(&mut self)
        requires
            old(self).wf(),
        ensures
            final(self).wf(),
            final(self).plan == old(self).plan,
            final(self).allocated == grown(old(self).allocated, old(self).plan.slots()),
            given_by(final(self).groups@) == given_by(old(self).groups@),
            final(self).groups@.len() == old(self).groups@.len() + 1,
            grows(old(self).parts(), final(self).parts()),
            final(self).groups@.last().supply().out == 0,
            final(self).groups@.last().supply().limit == final(self).allocated
                - old(self).allocated,
    {
        let remaining: usize = self.plan.max_slots() - self.allocated;
        let wanted: usize = if self.allocated == 0 {
            1
        } else {
            self.allocated
        };
        let slots: usize = if wanted < remaining {
            wanted
        } else {
            remaining
        };
        let ghost before = self.groups@;
        self.groups.push(self.plan.pool_up_to(slots));
        self.allocated = self.allocated + slots;
        assert(self.groups@.drop_last() =~= before);
    }
}

} // verus!
