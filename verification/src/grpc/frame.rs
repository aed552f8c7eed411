//! Messages in the bytes of a stream: a flag, a length and the payload.

use crate::bytes;
use crate::bytes::{equal, push_bytes, push_u32, read_u32, to_vec};
use crate::collections;
use crate::collections::{Permit, Pool, Share, Supply};
use crate::h2::event::DataPayload;
use vstd::prelude::*;

verus! {

/// A message as it is framed.
#[verifier::ext_equal]
pub struct FrameView {
    pub compressed: bool,
    pub payload: Seq<u8>,
}

/// The payload of a message, which holds the place in a pool in which its bytes came for as
/// long as it is kept.
pub struct Payload {
    bytes: Vec<u8>,
    place: Option<Share>,
}

impl Payload {
    pub closed spec fn view(&self) -> Seq<u8> {
        self.bytes@
    }

    /// The pool whose place is held, if there is one.
    pub closed spec fn place_of(&self) -> Option<int> {
        collections::pool_of(self.place)
    }

    /// A payload that holds no place.
    pub fn from_vec(bytes: Vec<u8>) -> (r: Self)
        ensures
            r@ == bytes@,
            r.place_of() is None,
    {
        Payload { bytes, place: None }
    }

    pub fn as_slice(&self) -> (r: &[u8])
        ensures
            r@ == self@,
    {
        self.bytes.as_slice()
    }

    pub fn len(&self) -> (r: usize)
        ensures
            r == self@.len(),
    {
        self.bytes.len()
    }

    pub fn is_empty(&self) -> (r: bool)
        ensures
            r == (self@.len() == 0),
    {
        self.bytes.len() == 0
    }

    /// Gives up the place in the pool.
    pub fn into_vec(self) -> (r: Vec<u8>)
        ensures
            r@ == self@,
    {
        self.bytes
    }
}

impl PartialEq for Payload {
    fn eq(&self, other: &Self) -> (r: bool) {
        equal(self.bytes.as_slice(), other.bytes.as_slice())
    }
}

impl vstd::std_specs::cmp::PartialEqSpecImpl for Payload {
    open spec fn obeys_eq_spec() -> bool {
        true
    }

    open spec fn eq_spec(&self, other: &Self) -> bool {
        self@ == other@
    }
}

impl Eq for Payload {}

pub struct MessageFrame {
    pub compressed: bool,
    pub payload: Payload,
}

impl PartialEq for MessageFrame {
    fn eq(&self, other: &Self) -> (r: bool) {
        self.compressed == other.compressed && self.payload == other.payload
    }
}

impl vstd::std_specs::cmp::PartialEqSpecImpl for MessageFrame {
    open spec fn obeys_eq_spec() -> bool {
        true
    }

    open spec fn eq_spec(&self, other: &Self) -> bool {
        self@ == other@
    }
}

impl Eq for MessageFrame {}

#[derive(Copy, Clone, Debug, PartialEq, Eq, Structural)]
pub enum FrameError {
    BadCompressionFlag(u8),
    MessageTooLarge { len: usize, max: usize },
    LengthOverflow,
    Capacity,
}

/// The number of bytes before a payload.
pub const PREFIX_LEN: usize = 5;

/// The bytes before a payload.
pub open spec fn prefix(compressed: bool, len: u32) -> Seq<u8> {
    seq![
        if compressed {
            1u8
        } else {
            0u8
        },
    ] + bytes::wire32(len)
}

/// A message in the bytes of a stream.
pub open spec fn framed(m: FrameView) -> Seq<u8> {
    prefix(m.compressed, m.payload.len() as u32) + m.payload
}

/// Messages in the bytes of a stream.
pub open spec fn all_framed(list: Seq<FrameView>) -> Seq<u8>
    decreases list.len(),
{
    if list.len() == 0 {
        Seq::empty()
    } else {
        framed(list[0]) + all_framed(list.drop_first())
    }
}

pub open spec fn frame_views(list: Seq<MessageFrame>) -> Seq<FrameView> {
    list.map_values(|m: MessageFrame| m@)
}

impl MessageFrame {
    pub open spec fn view(&self) -> FrameView {
        FrameView { compressed: self.compressed, payload: self.payload@ }
    }

    /// The bytes before a payload of the given length.
    pub fn header(compressed: bool, len: usize) -> (r: Result<Vec<u8>, FrameError>)
        ensures
            match r {
                Ok(out) => len <= u32::MAX && out@ == prefix(compressed, len as u32) && out@.len()
                    == PREFIX_LEN,
                Err(error) => len > u32::MAX && error == FrameError::LengthOverflow,
            },
    {
        if len > 0xffff_ffff {
            return Err(FrameError::LengthOverflow);
        }
        let mut out: Vec<u8> = Vec::with_capacity(PREFIX_LEN);
        if compressed {
            out.push(1);
        } else {
            out.push(0);
        }
        push_u32(&mut out, len as u32);
        assert(out@ =~= prefix(compressed, len as u32));
        Ok(out)
    }

    /// Writes a message.
    pub fn encode(compressed: bool, payload: &[u8], out: &mut Vec<u8>) -> (r: Result<
        (),
        FrameError,
    >)
        ensures
            match r {
                Ok(_) => payload@.len() <= u32::MAX && final(out)@ == old(out)@ + framed(
                    FrameView { compressed, payload: payload@ },
                ),
                Err(error) => payload@.len() > u32::MAX && error == FrameError::LengthOverflow
                    && final(out)@ == old(out)@,
            },
    {
        let head: Vec<u8> = match MessageFrame::header(compressed, payload.len()) {
            Ok(head) => head,
            Err(error) => return Err(error),
        };
        let ghost before = out@;
        push_bytes(out, head.as_slice());
        push_bytes(out, payload);
        assert(out@ =~= before + framed(FrameView { compressed, payload: payload@ }));
        Ok(())
    }
}

/// Bytes of a stream that are being read, with the place in a pool in which they came.
pub struct DataChunk {
    bytes: Vec<u8>,
    pos: usize,
    place: Option<Share>,
}

impl DataChunk {
    /// The bytes that are left.
    pub closed spec fn view(&self) -> Seq<u8> {
        self.bytes@.subrange(self.pos as int, self.bytes@.len() as int)
    }

    #[verifier::type_invariant]
    spec fn inv(self) -> bool {
        self.pos <= self.bytes@.len()
    }

    /// The pool whose place is held, if there is one.
    pub closed spec fn place_of(&self) -> Option<int> {
        collections::pool_of(self.place)
    }

    pub fn new(data: DataPayload) -> (r: Self)
        ensures
            r@ == data@,
            r.place_of() == Some(data.place_of()),
    {
        let (bytes, permit) = data.into_parts();
        let r = DataChunk { bytes, pos: 0, place: Some(permit.share()) };
        assert(r@ =~= bytes@);
        r
    }

    /// Bytes that hold no place.
    pub fn from_bytes(bytes: Vec<u8>) -> (r: Self)
        ensures
            r@ == bytes@,
            r.place_of() is None,
    {
        let r = DataChunk { bytes, pos: 0, place: None };
        assert(r@ =~= bytes@);
        r
    }

    /// A hold on the place for a message that lies in the bytes. The last one takes it along.
    fn hold(&mut self) -> (r: Option<Share>)
        ensures
            collections::pool_of(r) == old(self).place_of(),
            final(self)@ == old(self)@,
            final(self).place_of() == (if old(self)@.len() == 0 {
                None
            } else {
                old(self).place_of()
            }),
    {
        proof {
            use_type_invariant(&*self);
        }
        if self.is_empty() {
            let mut place: Option<Share> = None;
            std::mem::swap(&mut place, &mut self.place);
            return place;
        }
        match &self.place {
            Some(share) => Some(share.again()),
            None => None,
        }
    }

    pub fn is_empty(&self) -> (r: bool)
        ensures
            r == (self@.len() == 0),
    {
        proof {
            use_type_invariant(&*self);
        }
        self.pos == self.bytes.len()
    }

    fn len(&self) -> (r: usize)
        ensures
            r == self@.len(),
    {
        proof {
            use_type_invariant(&*self);
        }
        self.bytes.len() - self.pos
    }

    /// The first `len` bytes that are left.
    fn front(&self, len: usize) -> (r: &[u8])
        requires
            len <= self@.len(),
        ensures
            r@ == self@.take(len as int),
    {
        proof {
            use_type_invariant(&*self);
        }
        let total: usize = self.bytes.len();
        assert(self.pos + len <= total);
        let part: &[u8] = vstd::slice::slice_subrange(
            self.bytes.as_slice(),
            self.pos,
            self.pos + len,
        );
        assert(part@ =~= self@.take(len as int));
        part
    }

    /// Moves the first `len` bytes that are left to the end of `out`.
    fn take(&mut self, len: usize, out: &mut Vec<u8>)
        requires
            len <= old(self)@.len(),
        ensures
            final(self)@ == old(self)@.skip(len as int),
            final(self).place_of() == old(self).place_of(),
            final(out)@ == old(out)@ + old(self)@.take(len as int),
    {
        proof {
            use_type_invariant(&*self);
        }
        let ghost before = self@;
        let total: usize = self.bytes.len();
        assert(self.pos + len <= total);
        push_bytes(out, self.front(len));
        self.pos = self.pos + len;
        assert(self@ =~= before.skip(len as int));
    }
}

/// What has been read of a message that is not complete.
#[verifier::ext_equal]
pub struct DeframerView {
    pub max: usize,
    pub header: Seq<u8>,
    pub needed: nat,
    pub compressed: bool,
    pub body: Option<Seq<u8>>,
}

impl DeframerView {
    pub open spec fn reset(self) -> DeframerView {
        DeframerView {
            max: self.max,
            header: Seq::empty(),
            needed: 0,
            compressed: false,
            body: None,
        }
    }

    /// Whether a message is under way without a failure.
    pub open spec fn inv(self) -> bool {
        &&& self.header.len() <= PREFIX_LEN
        &&& self.needed <= self.max
        &&& self.header.len() < PREFIX_LEN ==> self.needed == 0 && self.body is None
            && !self.compressed
        &&& match self.body {
            Some(b) => b.len() < self.needed && self.header.len() == PREFIX_LEN,
            None => true,
        }
    }

    /// Whether what has been read is part of a message.
    pub open spec fn sound(self) -> bool {
        self.inv() && (self.header.len() == PREFIX_LEN ==> self.body is Some)
    }
}

/// A deframer to which nothing was given.
pub open spec fn fresh(max: usize) -> DeframerView {
    DeframerView { max, header: Seq::empty(), needed: 0, compressed: false, body: None }
}

/// Reads the five bytes before a payload.
pub open spec fn begun(d: DeframerView) -> (DeframerView, Option<FrameError>) {
    let len = bytes::be32(d.header, 1) as usize;
    if d.header[0] > 1 {
        (d, Some(FrameError::BadCompressionFlag(d.header[0])))
    } else if len > d.max {
        (
            DeframerView { compressed: d.header[0] == 1, ..d },
            Some(FrameError::MessageTooLarge { len, max: d.max }),
        )
    } else {
        (DeframerView { compressed: d.header[0] == 1, needed: len as nat, ..d }, None)
    }
}

pub type Deframed = (DeframerView, Seq<u8>, Result<Option<FrameView>, FrameError>);

/// Reads a payload. `place` says whether the pool has a place for one that is not complete.
pub open spec fn body_read(d: DeframerView, input: Seq<u8>, place: bool) -> Deframed {
    if d.body is None && input.len() >= d.needed {
        (
            d.reset(),
            input.skip(d.needed as int),
            Ok(
                Some(
                    FrameView { compressed: d.compressed, payload: input.take(d.needed as int) },
                ),
            ),
        )
    } else if d.body is None && !place {
        (d, input, Err(FrameError::Capacity))
    } else {
        let had = match d.body {
            Some(b) => b,
            None => Seq::empty(),
        };
        let n = if d.needed - had.len() <= input.len() {
            d.needed - had.len()
        } else {
            input.len() as int
        };
        let body = had + input.take(n);
        if body.len() == d.needed {
            (
                d.reset(),
                input.skip(n),
                Ok(Some(FrameView { compressed: d.compressed, payload: body })),
            )
        } else {
            (DeframerView { body: Some(body), ..d }, input.skip(n), Ok(None))
        }
    }
}

/// Reads up to the end of a message, or all there is.
#[verifier::opaque]
pub open spec fn deframed(d: DeframerView, input: Seq<u8>, place: bool) -> Deframed {
    if input.len() == 0 {
        (d, input, Ok(None))
    } else if d.header.len() < PREFIX_LEN {
        let n = if PREFIX_LEN - d.header.len() <= input.len() {
            PREFIX_LEN - d.header.len()
        } else {
            input.len() as int
        };
        let read = DeframerView { header: d.header + input.take(n), ..d };
        let rest = input.skip(n);
        if read.header.len() < PREFIX_LEN {
            (read, rest, Ok(None))
        } else {
            let (next, failed) = begun(read);
            match failed {
                Some(error) => (next, rest, Err(error)),
                None => if next.needed == 0 {
                    (
                        next.reset(),
                        rest,
                        Ok(
                            Some(
                                FrameView { compressed: next.compressed, payload: Seq::empty() },
                            ),
                        ),
                    )
                } else {
                    body_read(next, rest, place)
                },
            }
        }
    } else {
        body_read(d, input, place)
    }
}

/// Whether reading comes to a payload that is not complete and has no place yet.
pub open spec fn needs_place(d: DeframerView, input: Seq<u8>) -> bool {
    deframed(d, input, false).2 == Err::<Option<FrameView>, FrameError>(FrameError::Capacity)
}

/// Where no place is needed, it does not matter whether there is one; where one is needed and
/// there, all is read.
pub proof fn lemma_places(d: DeframerView, input: Seq<u8>)
    ensures
        !needs_place(d, input) ==> deframed(d, input, true) == deframed(d, input, false),
        needs_place(d, input) && d.inv() ==> deframed(d, input, true).2 == Ok::<
            Option<FrameView>,
            FrameError,
        >(None),
        d.inv() && (deframed(d, input, true).2 == Ok::<Option<FrameView>, FrameError>(None))
            ==> deframed(d, input, true).1.len() == 0,
{
    reveal(deframed);
}

/// What a pool has given once more input was read: a place is asked for where one is needed.
pub open spec fn asked_for(supply: Supply, d: DeframerView, input: Seq<u8>, place: bool) -> Supply {
    if needs_place(d, input) {
        supply.asked(supply.gives(place))
    } else {
        supply
    }
}

/// With a place, reading does not fail for want of one.
#[verifier::spinoff_prover]
proof fn lemma_placed(d: DeframerView, input: Seq<u8>)
    ensures
        deframed(d, input, true).2 != Err::<Option<FrameView>, FrameError>(FrameError::Capacity),
{
    reveal(deframed);
    let n = PREFIX_LEN - d.header.len();
    let read = DeframerView { header: d.header + input.take(n), ..d };
    assert(begun(read).1 != Some(FrameError::Capacity));
}

/// As long as a pool has given out fewer places than there are, a message that comes in pieces
/// finds one: reading does not fail for want of a place and does not depend on what the pool
/// would answer, and it takes one place at most.
pub proof fn law_first_pieces_find_places(
    supply: Supply,
    d: DeframerView,
    input: Seq<u8>,
    place: bool,
)
    requires
        supply.left() > 0,
    ensures
        deframed(d, input, supply.gives(place)).2 != Err::<Option<FrameView>, FrameError>(
            FrameError::Capacity,
        ),
        deframed(d, input, supply.gives(place)) == deframed(d, input, true),
        asked_for(supply, d, input, place).limit == supply.limit,
        supply.out <= asked_for(supply, d, input, place).out <= supply.out + 1,
{
    lemma_placed(d, input);
}

/// Takes messages out of the bytes of a stream.
pub struct Deframer {
    max_message_len: usize,
    header: Vec<u8>,
    body: Option<(Permit, Vec<u8>)>,
    needed: usize,
    compressed: bool,
}

impl Deframer {
    pub closed spec fn view(&self) -> DeframerView {
        DeframerView {
            max: self.max_message_len,
            header: self.header@,
            needed: self.needed as nat,
            compressed: self.compressed,
            body: match self.body {
                Some(b) => Some(b.1@),
                None => None,
            },
        }
    }

    /// The pool whose place is held for a payload that is not complete.
    pub closed spec fn place_of(&self) -> Option<int> {
        match self.body {
            Some(b) => Some(b.0.of()),
            None => None,
        }
    }

    #[verifier::type_invariant]
    spec fn inv(self) -> bool {
        self@.inv()
    }

    /// What is kept is part of a message.
    pub(crate) fn check(&self)
        ensures
            self@.inv(),
    {
        proof {
            use_type_invariant(&*self);
        }
    }

    pub fn new(max_message_len: usize) -> (r: Self)
        ensures
            r@ == fresh(max_message_len),
    {
        let r = Deframer {
            max_message_len,
            header: Vec::new(),
            body: None,
            needed: 0,
            compressed: false,
        };
        assert(r@.header =~= Seq::<u8>::empty());
        r
    }

    /// Reads up to the end of a message, or all there is. A payload that is not complete is
    /// kept in a place of the pool; once the pool has given out as many as it has, only the
    /// pool can say whether there is one.
    pub fn next(&mut self, input: &mut DataChunk, pool: &mut Pool) -> (r: Result<
        Option<MessageFrame>,
        FrameError,
    >)
        ensures
            exists|place: bool|
                next_is(
                    deframed(old(self)@, old(input)@, old(pool).supply().gives(place)),
                    final(self)@,
                    final(input)@,
                    r,
                ) && final(pool).supply() == #[trigger] asked_for(
                    old(pool).supply(),
                    old(self)@,
                    old(input)@,
                    place,
                ),
            final(pool).id() == old(pool).id(),
            r matches Ok(Some(m)) ==> m.payload.place_of() == (if old(self)@.body is Some {
                old(self).place_of()
            } else {
                old(input).place_of()
            }),
            final(self)@.body is Some ==> final(self).place_of() == (if old(self)@.body is Some {
                old(self).place_of()
            } else {
                Some(old(pool).id())
            }),
    {
        let ghost supply = pool.supply();
        let place: Option<Permit> = if self.needs_place(input) {
            pool.try_acquire()
        } else {
            None
        };
        let ghost granted = place is Some;
        let ghost before = (self@, input@);
        let r = self.next_with(input, place);
        proof {
            lemma_places(before.0, before.1);
            assert(next_is(deframed(before.0, before.1, supply.gives(granted)), self@, input@, r));
            assert(pool.supply() == asked_for(supply, before.0, before.1, granted));
        }
        r
    }

    /// Whether a place in the pool is needed to go on.
    pub fn needs_place(&self, input: &DataChunk) -> (r: bool)
        ensures
            r == needs_place(self@, input@),
    {
        proof {
            use_type_invariant(&*self);
        }
        reveal(deframed);
        if self.body.is_some() || input.is_empty() {
            return false;
        }
        if self.header.len() == PREFIX_LEN {
            return input.len() < self.needed;
        }
        let missing: usize = PREFIX_LEN - self.header.len();
        if input.len() < missing {
            return false;
        }
        let mut header: Vec<u8> = to_vec(self.header.as_slice());
        push_bytes(&mut header, input.front(missing));
        let len: usize = read_u32(header.as_slice(), 1) as usize;
        header[0] <= 1 && len <= self.max_message_len && input.len() - missing < len
    }

    /// Reads up to the end of a message, or all there is, with the place that the pool gave. A
    /// message holds the place in which its bytes were collected, or the place of the input
    /// where it lies there in one piece.
    pub fn next_with(&mut self, input: &mut DataChunk, place: Option<Permit>) -> (r: Result<
        Option<MessageFrame>,
        FrameError,
    >)
        ensures
            r matches Ok(Some(m)) ==> m.payload.place_of() == (if old(self)@.body is Some {
                old(self).place_of()
            } else {
                old(input).place_of()
            }),
            final(self)@.body is Some ==> final(self).place_of() == (if old(self)@.body is Some {
                old(self).place_of()
            } else {
                match place {
                    Some(permit) => Some(permit.of()),
                    None => None,
                }
            }),
            next_is(
                deframed(old(self)@, old(input)@, place is Some),
                final(self)@,
                final(input)@,
                r,
            ),
    {
        proof {
            use_type_invariant(&*self);
        }
        reveal(deframed);
        let ghost d = self@;
        let ghost all = input@;
        if input.is_empty() {
            return Ok(None);
        }
        let max: usize = self.max_message_len;
        let mut held: Deframer = Deframer::new(max);
        std::mem::swap(&mut held, self);
        let mut header: Vec<u8> = held.header;
        let body: Option<(Permit, Vec<u8>)> = held.body;
        let mut needed: usize = held.needed;
        let mut compressed: bool = held.compressed;
        if header.len() < PREFIX_LEN {
            let missing: usize = PREFIX_LEN - header.len();
            let n: usize = if missing <= input.len() {
                missing
            } else {
                input.len()
            };
            input.take(n, &mut header);
            if header.len() < PREFIX_LEN {
                *self = Deframer { max_message_len: max, header, body, needed, compressed };
                return Ok(None);
            }
            let flag: u8 = header[0];
            if flag > 1 {
                *self = Deframer { max_message_len: max, header, body, needed, compressed };
                return Err(FrameError::BadCompressionFlag(flag));
            }
            compressed = flag == 1;
            let len: usize = read_u32(header.as_slice(), 1) as usize;
            if len > max {
                *self = Deframer { max_message_len: max, header, body, needed, compressed };
                return Err(FrameError::MessageTooLarge { len, max });
            }
            needed = len;
            if needed == 0 {
                *self = Deframer::new(max);
                let payload = Payload { bytes: Vec::new(), place: input.hold() };
                let message = MessageFrame { compressed, payload };
                assert(message@.payload =~= Seq::<u8>::empty());
                return Ok(Some(message));
            }
        }
        let ghost rest = input@;
        match body {
            None => {
                if input.len() >= needed {
                    let mut payload: Vec<u8> = Vec::new();
                    input.take(needed, &mut payload);
                    assert(payload@ =~= rest.take(needed as int));
                    *self = Deframer::new(max);
                    let payload = Payload { bytes: payload, place: input.hold() };
                    return Ok(Some(MessageFrame { compressed, payload }));
                }
                match place {
                    None => {
                        *self = Deframer {
                            max_message_len: max,
                            header,
                            body: None,
                            needed,
                            compressed,
                        };
                        Err(FrameError::Capacity)
                    },
                    Some(permit) => {
                        let mut part: Vec<u8> = Vec::new();
                        let n: usize = input.len();
                        input.take(n, &mut part);
                        *self = Deframer {
                            max_message_len: max,
                            header,
                            body: Some((permit, part)),
                            needed,
                            compressed,
                        };
                        Ok(None)
                    },
                }
            },
            Some((permit, mut part)) => {
                let missing: usize = needed - part.len();
                let n: usize = if missing <= input.len() {
                    missing
                } else {
                    input.len()
                };
                input.take(n, &mut part);
                if part.len() == needed {
                    *self = Deframer::new(max);
                    let payload = Payload { bytes: part, place: Some(permit.share()) };
                    return Ok(Some(MessageFrame { compressed, payload }));
                }
                *self = Deframer {
                    max_message_len: max,
                    header,
                    body: Some((permit, part)),
                    needed,
                    compressed,
                };
                Ok(None)
            },
        }
    }
}

/// Whether a step of the deframer came out as stated.
pub open spec fn next_is(
    want: Deframed,
    d: DeframerView,
    rest: Seq<u8>,
    r: Result<Option<MessageFrame>, FrameError>,
) -> bool {
    &&& d == want.0
    &&& rest == want.1
    &&& match r {
        Ok(Some(m)) => want.2 == Ok::<Option<FrameView>, FrameError>(Some(m@)),
        Ok(None) => want.2 == Ok::<Option<FrameView>, FrameError>(None),
        Err(error) => want.2 == Err::<Option<FrameView>, FrameError>(error),
    }
}

/// All messages that are complete, where the pool always has a place.
pub open spec fn all_deframed(d: DeframerView, input: Seq<u8>) -> (
    DeframerView,
    Seq<FrameView>,
    Option<FrameError>,
)
    decreases input.len(),
{
    let (next, rest, out) = deframed(d, input, true);
    match out {
        Err(error) => (next, Seq::empty(), Some(error)),
        Ok(None) => (next, Seq::empty(), None),
        Ok(Some(m)) => if rest.len() < input.len() {
            let (end, more, failed) = all_deframed(next, rest);
            (end, seq![m] + more, failed)
        } else {
            (next, seq![m], None)
        },
    }
}

/// Messages come back from their bytes, in order and with nothing left over.
pub proof fn law_messages_round_trip(max: usize, list: Seq<FrameView>)
    requires
        forall|i: int|
            0 <= i < list.len() ==> (#[trigger] list[i]).payload.len() <= max
                && list[i].payload.len() <= u32::MAX,
    ensures
        all_deframed(fresh(max), all_framed(list)) == (fresh(max), list, None::<FrameError>),
    decreases list.len(),
{
    reveal(deframed);
    if list.len() == 0 {
        reveal(deframed);
        assert(all_deframed(fresh(max), all_framed(list)).1 =~= list);
    } else {
        let m = list[0];
        let tail = list.drop_first();
        law_messages_round_trip(max, tail);
        lemma_one_message(max, m, all_framed(tail));
        assert(seq![m] + tail =~= list);
    }
}

/// The next message in bytes that begin with it.
pub proof fn lemma_one_message(max: usize, m: FrameView, more: Seq<u8>)
    requires
        m.payload.len() <= max,
        m.payload.len() <= u32::MAX,
    ensures
        deframed(fresh(max), framed(m) + more, true) == (
            fresh(max),
            more,
            Ok::<Option<FrameView>, FrameError>(Some(m)),
        ),
        more.len() < (framed(m) + more).len(),
{
    reveal(deframed);
    let d = fresh(max);
    let head = prefix(m.compressed, m.payload.len() as u32);
    let all = framed(m) + more;
    let rest = m.payload + more;
    assert(head.len() == PREFIX_LEN);
    assert(head.subrange(1, 5) =~= bytes::wire32(m.payload.len() as u32));
    bytes::lemma_wire32(m.payload.len() as u32, head, 1);
    assert(d.header + all.take(5) =~= head);
    assert(all.skip(5) =~= rest);
    assert(rest.take(m.payload.len() as int) =~= m.payload);
    assert(rest.skip(m.payload.len() as int) =~= more);
    if m.payload.len() == 0 {
        assert(m.payload =~= Seq::<u8>::empty());
        assert(rest =~= more);
    }
}

/// It does not matter where the bytes of a stream are cut into pieces.
pub proof fn law_pieces_do_not_matter(d: DeframerView, a: Seq<u8>, b: Seq<u8>)
    requires
        d.sound(),
        all_deframed(d, a).2 is None,
    ensures
        all_deframed(d, a).0.sound(),
        ({
            let (mid, first, _) = all_deframed(d, a);
            let (end, second, failed) = all_deframed(mid, b);
            all_deframed(d, a + b) == (end, first + second, failed)
        }),
    decreases a.len(),
{
    let (mid, first, _) = all_deframed(d, a);
    let (end, second, failed) = all_deframed(mid, b);
    let all = a + b;
    let (na, ra, oa) = deframed(d, a, true);
    let (nw, rw, ow) = deframed(d, all, true);
    if a.len() == 0 {
        reveal(deframed);
        assert(all =~= b);
        assert(first + second =~= second);
    } else if oa is Ok && oa->Ok_0 is Some {
        let m = oa->Ok_0->0;
        lemma_step_extends(d, a, b);
        law_pieces_do_not_matter(na, ra, b);
        let (_, rest_first, _) = all_deframed(na, ra);
        assert((seq![m] + rest_first) + second =~= seq![m] + (rest_first + second));
    } else {
        lemma_step_waits(d, a, b);
        assert(first =~= Seq::<FrameView>::empty());
        assert(first + second =~= second);
        if b.len() == 0 {
            reveal(deframed);
            assert(all =~= a);
            assert(deframed(mid, b, true) == (mid, b, Ok::<Option<FrameView>, FrameError>(None)));
        } else if ow is Ok && ow->Ok_0 is Some {
            lemma_step_extends(mid, b, Seq::empty());
        }
    }
}

/// Reading gets on: what is kept stays part of a message, and a message uses up bytes.
pub proof fn lemma_gets_on(d: DeframerView, input: Seq<u8>)
    requires
        d.sound(),
        input.len() > 0,
        deframed(d, input, true).2 is Ok,
    ensures
        deframed(d, input, true).0.sound(),
        deframed(d, input, true).2->Ok_0 is Some ==> deframed(d, input, true).1.len()
            < input.len(),
        deframed(d, input, true).0.max == d.max,
{
    if deframed(d, input, true).2->Ok_0 is Some {
        lemma_step_extends(d, input, Seq::empty());
    } else {
        lemma_step_waits(d, input, Seq::empty());
    }
    reveal(deframed);
}

/// What is kept after reading without a failure is part of a message.
pub proof fn lemma_read_on(d: DeframerView, input: Seq<u8>, place: bool)
    requires
        d.sound(),
        input.len() > 0,
        deframed(d, input, place).2 is Ok,
    ensures
        deframed(d, input, place).0.sound(),
        deframed(d, input, place).2->Ok_0 is Some ==> deframed(d, input, place).1.len()
            < input.len(),
{
    lemma_places(d, input);
    if needs_place(d, input) {
        assert(place);
    }
    lemma_gets_on(d, input);
}

/// A message that ends in the first piece.
proof fn lemma_step_extends(d: DeframerView, a: Seq<u8>, b: Seq<u8>)
    requires
        d.sound(),
        a.len() > 0,
        deframed(d, a, true).2 is Ok,
        deframed(d, a, true).2->Ok_0 is Some,
    ensures
        deframed(d, a + b, true).0 == deframed(d, a, true).0,
        deframed(d, a + b, true).1 == deframed(d, a, true).1 + b,
        deframed(d, a + b, true).2 == deframed(d, a, true).2,
        deframed(d, a, true).1.len() < a.len(),
        deframed(d, a, true).0.sound(),
{
    reveal(deframed);
    let all = a + b;
    if d.header.len() < PREFIX_LEN {
        let n = PREFIX_LEN - d.header.len();
        assert(n <= a.len());
        assert(all.take(n) =~= a.take(n));
        let rest = a.skip(n);
        assert(all.skip(n) =~= rest + b);
        let read = DeframerView { header: d.header + a.take(n), ..d };
        let next = begun(read).0;
        assert((rest + b).take(next.needed as int) =~= rest.take(next.needed as int));
        assert((rest + b).skip(next.needed as int) =~= rest.skip(next.needed as int) + b);
    } else {
        let n = d.needed - d.body->0.len();
        assert(n <= a.len());
        assert(all.take(n) =~= a.take(n));
        assert(all.skip(n) =~= a.skip(n) + b);
    }
}

/// A message that does not end in the first piece.
proof fn lemma_step_waits(d: DeframerView, a: Seq<u8>, b: Seq<u8>)
    requires
        d.sound(),
        a.len() > 0,
        deframed(d, a, true).2 == Ok::<Option<FrameView>, FrameError>(None),
    ensures
        b.len() > 0 ==> deframed(d, a + b, true) == deframed(deframed(d, a, true).0, b, true),
        deframed(d, a, true).0.sound(),
{
    reveal(deframed);
    let all = a + b;
    let mid = deframed(d, a, true).0;
    if d.header.len() < PREFIX_LEN {
        let n = PREFIX_LEN - d.header.len();
        if a.len() < n {
            assert(a.take(a.len() as int) =~= a);
            let k = PREFIX_LEN - mid.header.len();
            if b.len() >= k {
                assert(d.header + all.take(n) =~= mid.header + b.take(k));
                assert(all.skip(n) =~= b.skip(k));
            } else {
                assert(all.take(all.len() as int) =~= all);
                assert(b.take(b.len() as int) =~= b);
                assert(d.header + all =~= mid.header + b);
                assert(all.skip(all.len() as int) =~= b.skip(b.len() as int));
            }
        } else {
            assert(all.take(n) =~= a.take(n));
            let rest = a.skip(n);
            assert(all.skip(n) =~= rest + b);
            let next = begun(DeframerView { header: d.header + a.take(n), ..d }).0;
            assert(rest.take(rest.len() as int) =~= rest);
            assert(Seq::<u8>::empty() + rest =~= rest);
            if b.len() > 0 {
                lemma_body_waits(next, rest, b);
            }
        }
    } else if b.len() > 0 {
        lemma_body_waits(d, a, b);
    }
}

proof fn lemma_body_waits(d: DeframerView, a: Seq<u8>, b: Seq<u8>)
    requires
        d.inv(),
        d.header.len() == PREFIX_LEN,
        d.needed > 0,
        b.len() > 0,
        body_read(d, a, true).2 == Ok::<Option<FrameView>, FrameError>(None),
    ensures
        body_read(d, a + b, true) == body_read(body_read(d, a, true).0, b, true),
{
    let all = a + b;
    let had = match d.body {
        Some(x) => x,
        None => Seq::empty(),
    };
    assert(a.take(a.len() as int) =~= a);
    let k = d.needed - had.len() - a.len();
    assert(k > 0);
    if b.len() >= k {
        assert(had + all.take(k + a.len()) =~= had + a + b.take(k));
        assert(all.skip(k + a.len()) =~= b.skip(k));
        assert(d.body is None ==> had + all.take(d.needed as int) =~= all.take(d.needed as int));
    } else {
        assert(all.take(all.len() as int) =~= all);
        assert(b.take(b.len() as int) =~= b);
        assert(had + all =~= had + a + b);
        assert(all.skip(all.len() as int) =~= b.skip(b.len() as int));
    }
}

} // verus!
