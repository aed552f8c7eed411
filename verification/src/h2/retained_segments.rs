//! The bytes that came in and were not used yet, in the chunks that they came in.

use crate::collections;
use crate::collections::Chunks;
use vstd::prelude::*;

verus! {

pub proof fn lemma_joined_push(chunks: Seq<Seq<u8>>, chunk: Seq<u8>)
    ensures
        collections::joined(chunks.push(chunk)) == collections::joined(chunks) + chunk,
    decreases chunks.len(),
{
    if chunks.len() == 0 {
        assert(chunks.push(chunk).drop_first() =~= Seq::<Seq<u8>>::empty());
        assert(collections::joined(chunks.push(chunk).drop_first()) == Seq::<u8>::empty());
        assert(collections::joined(chunks.push(chunk)) =~= collections::joined(chunks) + chunk);
    } else {
        lemma_joined_push(chunks.drop_first(), chunk);
        assert(chunks.push(chunk).drop_first() =~= chunks.drop_first().push(chunk));
        assert(collections::joined(chunks.push(chunk)) =~= collections::joined(chunks) + chunk);
    }
}

pub proof fn lemma_joined_advanced(chunks: Seq<Seq<u8>>, n: int)
    requires
        0 <= n <= collections::joined(chunks).len(),
    ensures
        collections::joined(collections::advanced(chunks, n)) == collections::joined(
            chunks,
        ).subrange(n, collections::joined(chunks).len() as int),
        collections::advanced(chunks, n).len() <= chunks.len(),
    decreases chunks.len(),
{
    let all = collections::joined(chunks);
    if n == 0 || chunks.len() == 0 {
        assert(all.subrange(n, all.len() as int) =~= all);
    } else if n < chunks[0].len() {
        let rest = chunks[0].subrange(n, chunks[0].len() as int);
        let next = chunks.update(0, rest);
        assert(next.drop_first() =~= chunks.drop_first());
        assert(collections::joined(next) =~= all.subrange(n, all.len() as int));
    } else {
        let tail = collections::joined(chunks.drop_first());
        lemma_joined_advanced(chunks.drop_first(), n - chunks[0].len());
        assert(tail.subrange(n - chunks[0].len(), tail.len() as int) =~= all.subrange(
            n,
            all.len() as int,
        ));
    }
}

/// Incoming bytes: their chunks, how many bytes and how many chunks there may be.
#[verifier::ext_equal]
pub struct InputView {
    pub chunks: Seq<Seq<u8>>,
    pub byte_capacity: nat,
    pub chunk_capacity: nat,
}

impl InputView {
    /// The bytes.
    pub open spec fn bytes(self) -> Seq<u8> {
        collections::joined(self.chunks)
    }

    /// Whether a chunk of `len` bytes finds room.
    pub open spec fn has_room(self, len: int) -> bool {
        len == 0 || (self.bytes().len() + len <= self.byte_capacity && self.chunks.len()
            != self.chunk_capacity)
    }

    /// With a chunk more; an empty one makes no difference.
    pub open spec fn with(self, chunk: Seq<u8>) -> InputView {
        if chunk.len() == 0 {
            self
        } else {
            InputView { chunks: self.chunks.push(chunk), ..self }
        }
    }

    /// Without the first `n` bytes.
    pub open spec fn without(self, n: int) -> InputView {
        InputView { chunks: collections::advanced(self.chunks, n), ..self }
    }
}

/// Taking bytes away leaves the others as they were.
pub proof fn law_taking_keeps_the_rest(v: InputView, n: int)
    requires
        0 <= n <= v.bytes().len(),
    ensures
        v.without(n).bytes() == v.bytes().subrange(n, v.bytes().len() as int),
{
    lemma_joined_advanced(v.chunks, n);
}

/// Bytes come out in the order in which they came in.
pub proof fn law_bytes_are_appended(v: InputView, chunk: Seq<u8>)
    ensures
        v.with(chunk).bytes() == v.bytes() + chunk,
{
    if chunk.len() == 0 {
        assert(v.bytes() + chunk =~= v.bytes());
    } else {
        lemma_joined_push(v.chunks, chunk);
    }
}

pub struct RetainedSegments {
    chunks: Chunks,
    byte_capacity: usize,
    chunk_capacity: usize,
}

impl RetainedSegments {
    pub closed spec fn view(&self) -> InputView {
        InputView {
            chunks: self.chunks.chunks(),
            byte_capacity: self.byte_capacity as nat,
            chunk_capacity: self.chunk_capacity as nat,
        }
    }

    /// The bytes keep their limit.
    pub open spec fn wf(&self) -> bool {
        self@.bytes().len() <= self@.byte_capacity <= usize::MAX
    }

    pub fn new(byte_capacity: usize, chunk_capacity: usize) -> (r: Self)
        ensures
            r.wf(),
            r@ == (InputView {
                chunks: Seq::empty(),
                byte_capacity: byte_capacity as nat,
                chunk_capacity: chunk_capacity as nat,
            }),
    {
        RetainedSegments { chunks: Chunks::new(), byte_capacity, chunk_capacity }
    }

    pub fn len(&self) -> (r: usize)
        ensures
            r == self@.bytes().len(),
    {
        self.chunks.len()
    }

    pub fn remaining(&self) -> (r: usize)
        requires
            self.wf(),
        ensures
            r == self@.byte_capacity - self@.bytes().len(),
    {
        self.byte_capacity - self.len()
    }

    /// Appends a chunk: whether there was room for it.
    pub fn push(&mut self, chunk: &[u8]) -> (r: bool)
        requires
            old(self).wf(),
        ensures
            final(self).wf(),
            r == old(self)@.has_room(chunk@.len() as int),
            final(self)@ == (if r {
                old(self)@.with(chunk@)
            } else {
                old(self)@
            }),
    {
        if chunk.len() == 0 {
            return true;
        }
        if chunk.len() > self.remaining() || self.chunks.chunk_count() == self.chunk_capacity {
            return false;
        }
        proof {
            law_bytes_are_appended(self@, chunk@);
        }
        self.chunks.push_copy(chunk)
    }

    /// A copy of `len` bytes at `offset`, where there are as many.
    pub fn retained_range(&self, offset: usize, len: usize) -> (r: Option<Vec<u8>>)
        ensures
            r is Some <==> offset + len <= self@.bytes().len(),
            r matches Some(bytes) ==> bytes@ == self@.bytes().subrange(
                offset as int,
                offset + len,
            ),
    {
        let mut out: Vec<u8> = Vec::new();
        if self.chunks.copy_range(offset, len, &mut out) {
            assert(out@ =~= self@.bytes().subrange(offset as int, offset + len));
            Some(out)
        } else {
            None
        }
    }

    /// Whether `len` bytes at `offset` came in one chunk.
    pub fn is_contiguous(&self, offset: usize, len: usize) -> (r: bool)
        ensures
            r == (offset + len <= self@.bytes().len() && (len == 0 || collections::in_one_chunk(
                self@.chunks,
                offset as int,
                len as int,
            ))),
    {
        if len == 0 {
            offset <= self.len()
        } else {
            self.chunks.contiguous_range(offset, len).is_some()
        }
    }

    /// Removes the first `amount` bytes: whether there were as many.
    pub fn try_consume(&mut self, amount: usize) -> (r: bool)
        requires
            old(self).wf(),
        ensures
            final(self).wf(),
            r == (amount <= old(self)@.bytes().len()),
            final(self)@ == (if r {
                old(self)@.without(amount as int)
            } else {
                old(self)@
            }),
    {
        proof {
            if amount <= self@.bytes().len() {
                law_taking_keeps_the_rest(self@, amount as int);
            }
        }
        self.chunks.try_consume(amount)
    }
}

} // verus!
