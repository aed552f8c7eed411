//! What is to be sent: frames in a ring of bytes, and bodies that stand between them.

use crate::bytes;
use crate::bytes::push_bytes;
use crate::collections;
use crate::collections::Ring;
use crate::h2::error::ConnError;
use crate::h2::hpack::dynamic_table;
use crate::h2::frame;
use crate::h2::frame::{
    Continuation, Data, ErrorCode, FrameLength, FrameView, HeadView, Headers, RstStream, Type,
    WindowIncrement, WindowUpdate, HEADER_LEN,
};
use crate::h2::hpack::encoder;
use crate::h2::hpack::encoder::EncoderView;
use crate::h2::hpack::{Encoder, Header};
use crate::h2::settings;
use crate::h2::settings::Settings;
use crate::h2::stream::StreamId;
use std::collections::VecDeque;
use vstd::prelude::*;

verus! {

/// A body, and how many bytes of the ring go before it.
pub struct PayloadView {
    pub prefix: nat,
    pub body: Seq<u8>,
}

/// What is to be sent: the bytes in the ring and where they start, the bodies between them,
/// the bytes in the ring that go before no body, the limit for all of it, and the encoder of
/// header fields.
#[verifier::ext_equal]
pub struct EgressView {
    pub bytes: Seq<u8>,
    pub head: nat,
    pub payloads: Seq<PayloadView>,
    pub unassigned: nat,
    pub capacity: nat,
    pub encoder: EncoderView,
}

/// The bytes of all bodies.
pub open spec fn body_bytes(payloads: Seq<PayloadView>) -> nat
    decreases payloads.len(),
{
    if payloads.len() == 0 {
        0
    } else {
        payloads[0].body.len() + body_bytes(payloads.drop_first())
    }
}

/// The bytes of the ring that go before bodies.
pub open spec fn prefix_bytes(payloads: Seq<PayloadView>) -> nat
    decreases payloads.len(),
{
    if payloads.len() == 0 {
        0
    } else {
        payloads[0].prefix + prefix_bytes(payloads.drop_first())
    }
}

/// All bytes in the order in which they go out.
pub open spec fn stream_of(bytes: Seq<u8>, payloads: Seq<PayloadView>) -> Seq<u8>
    decreases payloads.len(),
{
    if payloads.len() == 0 {
        bytes
    } else {
        let n = payloads[0].prefix as int;
        bytes.subrange(0, n) + payloads[0].body + stream_of(
            bytes.subrange(n, bytes.len() as int),
            payloads.drop_first(),
        )
    }
}

impl EgressView {
    /// The number of bytes that are to be sent.
    pub open spec fn len(self) -> nat {
        self.bytes.len() + body_bytes(self.payloads)
    }

    /// All bytes in the order in which they go out.
    pub open spec fn outgoing(self) -> Seq<u8> {
        stream_of(self.bytes, self.payloads)
    }

    /// Whether `n` more bytes find room.
    pub open spec fn has_room(self, n: int) -> bool {
        self.len() + n <= self.capacity
    }

    /// With bytes appended.
    pub open spec fn with(self, more: Seq<u8>) -> EgressView {
        EgressView { bytes: self.bytes + more, unassigned: self.unassigned + more.len(), ..self }
    }

    /// With a body appended; an empty one makes no difference.
    pub open spec fn with_body(self, body: Seq<u8>) -> EgressView {
        if body.len() == 0 {
            self
        } else {
            EgressView {
                payloads: self.payloads.push(PayloadView { prefix: self.unassigned, body }),
                unassigned: 0,
                ..self
            }
        }
    }

    /// The bytes that go out before the next body.
    pub open spec fn ready(self) -> nat {
        if self.payloads.len() > 0 {
            self.payloads[0].prefix
        } else {
            self.bytes.len()
        }
    }

    /// How many of the bytes that go out before the next body lie in one piece.
    pub open spec fn first_len(self) -> nat {
        let piece: int = if self.bytes.len() <= self.capacity - self.head {
            self.bytes.len() as int
        } else {
            self.capacity - self.head
        };
        if piece < self.ready() {
            piece as nat
        } else {
            self.ready()
        }
    }

    /// Without `n` bytes that went out.
    pub open spec fn drained(self, n: int) -> EgressView {
        let taken = if n < self.ready() {
            n
        } else {
            self.ready() as int
        };
        EgressView {
            bytes: self.bytes.subrange(taken, self.bytes.len() as int),
            head: if taken == self.bytes.len() {
                0
            } else {
                collections::wrapped(self.head, taken, self.capacity)
            },
            payloads: if self.payloads.len() > 0 {
                self.payloads.update(
                    0,
                    PayloadView {
                        prefix: (self.payloads[0].prefix - taken) as nat,
                        body: self.payloads[0].body,
                    },
                )
            } else {
                self.payloads
            },
            unassigned: if self.payloads.len() > 0 {
                self.unassigned
            } else {
                (self.unassigned - taken) as nat
            },
            ..self
        }
    }

    /// Without the first body, which went out.
    pub open spec fn body_taken(self) -> EgressView {
        EgressView { payloads: self.payloads.drop_first(), ..self }
    }
}

/// The ring holds what goes before bodies and what goes before none, and all of it keeps the
/// limit.
pub open spec fn egress_inv(v: EgressView) -> bool {
    &&& v.bytes.len() == prefix_bytes(v.payloads) + v.unassigned
    &&& v.len() <= v.capacity
    &&& v.head < v.capacity
}

proof fn lemma_payload_push(payloads: Seq<PayloadView>, p: PayloadView)
    ensures
        body_bytes(payloads.push(p)) == body_bytes(payloads) + p.body.len(),
        prefix_bytes(payloads.push(p)) == prefix_bytes(payloads) + p.prefix,
    decreases payloads.len(),
{
    let next = payloads.push(p);
    if payloads.len() == 0 {
        assert(next.drop_first() =~= Seq::<PayloadView>::empty());
        assert(body_bytes(next.drop_first()) == 0);
        assert(prefix_bytes(next.drop_first()) == 0);
    } else {
        lemma_payload_push(payloads.drop_first(), p);
        assert(next.drop_first() =~= payloads.drop_first().push(p));
    }
}

proof fn lemma_payload_update(payloads: Seq<PayloadView>, p: PayloadView)
    requires
        payloads.len() > 0,
    ensures
        body_bytes(payloads.update(0, p)) == body_bytes(payloads) - payloads[0].body.len()
            + p.body.len(),
        prefix_bytes(payloads.update(0, p)) == prefix_bytes(payloads) - payloads[0].prefix
            + p.prefix,
        payloads.update(0, p).drop_first() == payloads.drop_first(),
{
    assert(payloads.update(0, p).drop_first() =~= payloads.drop_first());
}

proof fn lemma_stream_append(bytes: Seq<u8>, payloads: Seq<PayloadView>, more: Seq<u8>)
    requires
        prefix_bytes(payloads) <= bytes.len(),
    ensures
        stream_of(bytes + more, payloads) == stream_of(bytes, payloads) + more,
    decreases payloads.len(),
{
    if payloads.len() > 0 {
        let n = payloads[0].prefix as int;
        let rest = bytes.subrange(n, bytes.len() as int);
        lemma_stream_append(rest, payloads.drop_first(), more);
        assert((bytes + more).subrange(0, n) =~= bytes.subrange(0, n));
        assert((bytes + more).subrange(n, (bytes + more).len() as int) =~= rest + more);
        assert(stream_of(bytes + more, payloads) =~= stream_of(bytes, payloads) + more);
    }
}

proof fn lemma_stream_body(bytes: Seq<u8>, payloads: Seq<PayloadView>, p: PayloadView)
    requires
        prefix_bytes(payloads) + p.prefix == bytes.len(),
    ensures
        stream_of(bytes, payloads.push(p)) == stream_of(bytes, payloads) + p.body,
    decreases payloads.len(),
{
    let next = payloads.push(p);
    if payloads.len() == 0 {
        let n = p.prefix as int;
        assert(next.drop_first() =~= Seq::<PayloadView>::empty());
        assert(bytes.subrange(0, n) =~= bytes);
        let rest = bytes.subrange(n, bytes.len() as int);
        assert(stream_of(rest, next.drop_first()) == rest);
        assert(stream_of(bytes, next) =~= bytes + p.body);
    } else {
        let n = payloads[0].prefix as int;
        let rest = bytes.subrange(n, bytes.len() as int);
        assert(next.drop_first() =~= payloads.drop_first().push(p));
        lemma_stream_body(rest, payloads.drop_first(), p);
        assert(stream_of(bytes, next) =~= stream_of(bytes, payloads) + p.body);
    }
}

/// What is appended goes out last, behind everything that was to be sent before.
pub proof fn law_order_is_kept(v: EgressView, more: Seq<u8>)
    requires
        egress_inv(v),
    ensures
        v.with(more).outgoing() == v.outgoing() + more,
        v.with_body(more).outgoing() == v.outgoing() + more,
{
    lemma_stream_append(v.bytes, v.payloads, more);
    if more.len() == 0 {
        assert(v.outgoing() + more =~= v.outgoing());
    } else {
        lemma_stream_body(v.bytes, v.payloads, PayloadView { prefix: v.unassigned, body: more });
    }
}

/// What went out is what was to go out first, and the rest follows in order.
pub proof fn law_sent_bytes_come_from_the_front(v: EgressView, n: int)
    requires
        egress_inv(v),
        0 <= n <= v.ready(),
    ensures
        egress_inv(v.drained(n)),
        v.outgoing() == v.bytes.subrange(0, n) + v.drained(n).outgoing(),
        v.payloads.len() > 0 && v.payloads[0].prefix == 0 ==> v.outgoing() == v.payloads[0].body
            + v.body_taken().outgoing(),
{
    if v.payloads.len() > 0 {
        let p = v.payloads[0];
        let q = PayloadView { prefix: (p.prefix - n) as nat, body: p.body };
        lemma_payload_update(v.payloads, q);
        let d = v.drained(n);
        assert(prefix_bytes(v.payloads) >= p.prefix);
        assert(v.bytes.subrange(0, p.prefix as int) =~= v.bytes.subrange(0, n) + d.bytes.subrange(
            0,
            p.prefix - n,
        ));
        assert(v.bytes.subrange(p.prefix as int, v.bytes.len() as int) =~= d.bytes.subrange(
            p.prefix - n,
            d.bytes.len() as int,
        ));
        assert(v.outgoing() =~= v.bytes.subrange(0, n) + d.outgoing());
        if p.prefix == 0 {
            assert(v.bytes.subrange(0, v.bytes.len() as int) =~= v.bytes);
            assert(v.outgoing() =~= p.body + v.body_taken().outgoing());
        }
    } else {
        assert(v.outgoing() =~= v.bytes.subrange(0, n) + v.drained(n).outgoing());
    }
}

/// The frames that continue a block of header fields.
pub open spec fn continuation_frames(stream: u32, rest: Seq<u8>, max_frame: int) -> Seq<u8>
    decreases rest.len(),
{
    if rest.len() <= max_frame || max_frame <= 0 {
        frame::frame_wire(
            FrameView::Continuation { stream, end_headers: true, fragment: rest },
        )
    } else {
        frame::frame_wire(
            FrameView::Continuation {
                stream,
                end_headers: false,
                fragment: rest.subrange(0, max_frame),
            },
        ) + continuation_frames(stream, rest.subrange(max_frame, rest.len() as int), max_frame)
    }
}

/// The frames of a block of header fields: HEADERS, and CONTINUATION where it is too long for
/// one frame.
pub open spec fn header_frames(
    stream: u32,
    block: Seq<u8>,
    end_stream: bool,
    max_frame: int,
) -> Seq<u8> {
    if block.len() <= max_frame {
        frame::frame_wire(
            FrameView::Headers {
                stream,
                end_stream,
                end_headers: true,
                priority: None,
                fragment: block,
            },
        )
    } else {
        frame::frame_wire(
            FrameView::Headers {
                stream,
                end_stream,
                end_headers: false,
                priority: None,
                fragment: block.subrange(0, max_frame),
            },
        ) + continuation_frames(stream, block.subrange(max_frame, block.len() as int), max_frame)
    }
}

/// The number of frames that `len` bytes take.
pub open spec fn frame_count(len: int, max_frame: int) -> int
    decreases len,
{
    if len <= max_frame || max_frame <= 0 {
        1
    } else {
        1 + frame_count(len - max_frame, max_frame)
    }
}

proof fn lemma_frame_len(f: FrameView)
    ensures
        frame::frame_wire(f).len() == HEADER_LEN + frame::frame_body(f).len(),
{
}

proof fn lemma_continuation_len(stream: u32, rest: Seq<u8>, max_frame: int)
    requires
        max_frame > 0,
    ensures
        continuation_frames(stream, rest, max_frame).len() == rest.len() + HEADER_LEN * frame_count(
            rest.len() as int,
            max_frame,
        ),
    decreases rest.len(),
{
    if rest.len() > max_frame {
        let tail = rest.subrange(max_frame, rest.len() as int);
        lemma_continuation_len(stream, tail, max_frame);
        lemma_frame_len(
            FrameView::Continuation {
                stream,
                end_headers: false,
                fragment: rest.subrange(0, max_frame),
            },
        );
    } else {
        lemma_frame_len(FrameView::Continuation { stream, end_headers: true, fragment: rest });
    }
}

proof fn lemma_header_len(stream: u32, block: Seq<u8>, end_stream: bool, max_frame: int)
    requires
        max_frame > 0,
    ensures
        header_frames(stream, block, end_stream, max_frame).len() == block.len() + HEADER_LEN
            * frame_count(block.len() as int, max_frame),
{
    if block.len() > max_frame {
        lemma_continuation_len(stream, block.subrange(max_frame, block.len() as int), max_frame);
    }
}

/// The header of a DATA frame whose payload is sent behind it.
pub open spec fn data_head(stream: u32, end_stream: bool, length: u32) -> Seq<u8> {
    frame::head_wire(
        HeadView {
            length,
            kind: Type::Data,
            flags: frame::flag_bits(end_stream, false, false),
            stream,
        },
    )
}

/// A body that waits behind bytes of the ring.
struct SharedPayload {
    prefix_len: usize,
    body: Vec<u8>,
}

/// A write: bytes that were copied out, or such bytes followed by a body.
pub enum Write {
    Buffered(usize),
    Split { prefix_len: usize, body: Vec<u8> },
}

pub struct Egress {
    bytes: Ring,
    encoder: Encoder,
    payloads: VecDeque<SharedPayload>,
    payload_bytes: usize,
    unassigned_prefix: usize,
}

spec fn payload_views(payloads: Seq<SharedPayload>) -> Seq<PayloadView> {
    payloads.map_values(
        |p: SharedPayload| PayloadView { prefix: p.prefix_len as nat, body: p.body@ },
    )
}

impl Egress {
    pub closed spec fn view(&self) -> EgressView {
        EgressView {
            bytes: self.bytes.bytes(),
            head: self.bytes.head(),
            payloads: payload_views(self.payloads@),
            unassigned: self.unassigned_prefix as nat,
            capacity: self.bytes.limit(),
            encoder: self.encoder@,
        }
    }

    pub closed spec fn wf(&self) -> bool {
        &&& egress_inv(self@)
        &&& self.payload_bytes == body_bytes(self@.payloads)
        &&& self.encoder.wf()
        &&& self@.capacity <= isize::MAX
    }

    pub proof fn lemma_wf(&self)
        requires
            self.wf(),
        ensures
            egress_inv(self@),
            self@.capacity <= isize::MAX,
    {
    }

    pub fn from_capacity(capacity: usize, table_size: usize) -> (r: Option<Self>)
        requires
            capacity <= isize::MAX,
            table_size <= dynamic_table::table_cap(),
        ensures
            r is Some <==> capacity > 0,
            r matches Some(egress) ==> egress.wf() && egress@ == (EgressView {
                bytes: Seq::empty(),
                head: 0,
                payloads: Seq::empty(),
                unassigned: 0,
                capacity: capacity as nat,
                encoder: egress@.encoder,
            }) && egress@.encoder.pending is None && egress@.encoder.setting == table_size
                && !egress@.encoder.reset && egress@.encoder.coded
                && egress@.encoder.table.fields.len() == 0 && egress@.encoder.table.max
                == table_size,
    {
        match Ring::try_with_capacity(capacity) {
            None => None,
            Some(bytes) => {
                let payloads: VecDeque<SharedPayload> = VecDeque::new();
                let r = Egress {
                    bytes,
                    encoder: Encoder::new(table_size),
                    payloads,
                    payload_bytes: 0,
                    unassigned_prefix: 0,
                };
                assert(r@.payloads =~= Seq::<PayloadView>::empty());
                Some(r)
            },
        }
    }

    /// The bytes that go out before the next body, in two pieces.
    pub fn slices(&self) -> (r: (&[u8], &[u8]))
        requires
            self.wf(),
        ensures
            r.0@ + r.1@ == self@.bytes.subrange(0, self@.ready() as int),
            r.0@.len() == self@.first_len(),
    {
        let limit: usize = self.ready_len();
        proof {
            self.lemma_ready();
        }
        let (first, second): (&[u8], &[u8]) = self.bytes.as_slices();
        let first_len: usize = if first.len() < limit {
            first.len()
        } else {
            limit
        };
        let second_len: usize = if second.len() < limit - first_len {
            second.len()
        } else {
            limit - first_len
        };
        let a = &first[0..first_len];
        let b = &second[0..second_len];
        assert(a@ + b@ =~= self@.bytes.subrange(0, self@.ready() as int));
        (a, b)
    }

    proof fn lemma_ready(&self)
        requires
            self.wf(),
        ensures
            self@.ready() <= self@.bytes.len(),
    {
    }

    fn ready_len(&self) -> (r: usize)
        requires
            self.wf(),
        ensures
            r == self@.ready(),
    {
        if self.payloads.len() > 0 {
            let first = &self.payloads[0];
            first.prefix_len
        } else {
            self.bytes.len()
        }
    }

    /// Removes bytes that went out, up to the next body.
    pub fn drain(&mut self, n: usize)
        requires
            old(self).wf(),
        ensures
            final(self).wf(),
            final(self)@ == old(self)@.drained(n as int),
    {
        let ghost before = self@;
        let available: usize = self.ready_len();
        proof {
            self.lemma_ready();
            let taken = if n < before.ready() {
                n as int
            } else {
                before.ready() as int
            };
            law_sent_bytes_come_from_the_front(before, taken);
            if before.payloads.len() > 0 {
                lemma_payload_update(
                    before.payloads,
                    PayloadView {
                        prefix: (before.payloads[0].prefix - taken) as nat,
                        body: before.payloads[0].body,
                    },
                );
            }
        }
        let consumed: usize = if n < available {
            n
        } else {
            available
        };
        let _ = self.bytes.consume_up_to(consumed);
        if let Some(first) = self.payloads.pop_front() {
            let next = SharedPayload { prefix_len: first.prefix_len - consumed, body: first.body };
            self.payloads.push_front(next);
        } else {
            self.unassigned_prefix = self.unassigned_prefix - consumed;
        }
        assert(self@.payloads =~= before.drained(n as int).payloads);
        assert(self@ =~= before.drained(n as int));
    }

    /// Copies out up to `limit` bytes and removes them.
    pub fn drain_into(&mut self, limit: usize, out: &mut Vec<u8>) -> (r: usize)
        requires
            old(self).wf(),
        ensures
            final(self).wf(),
            r == (if limit < old(self)@.ready() {
                limit as nat
            } else {
                old(self)@.ready()
            }),
            final(out)@ == old(out)@ + old(self)@.bytes.subrange(0, r as int),
            final(self)@ == old(self)@.drained(r as int),
    {
        let ghost before = self@;
        let ghost start = out@;
        proof {
            self.lemma_ready();
        }
        let (first, second): (&[u8], &[u8]) = self.slices();
        let first_len: usize = if first.len() < limit {
            first.len()
        } else {
            limit
        };
        let second_len: usize = if second.len() < limit - first_len {
            second.len()
        } else {
            limit - first_len
        };
        let ghost all = before.bytes.subrange(0, before.ready() as int);
        assert(all == first@ + second@);
        assert(all.len() == first@.len() + second@.len());
        assert(all.len() == before.ready());
        push_bytes(out, &first[0..first_len]);
        push_bytes(out, &second[0..second_len]);
        let written: usize = first_len + second_len;
        assert(out@ =~= start + before.bytes.subrange(0, written as int)) by {
            assert(before.bytes.subrange(0, written as int) =~= all.subrange(0, written as int));
            assert(all.subrange(0, written as int) =~= first@.subrange(0, first_len as int)
                + second@.subrange(0, second_len as int));
        }
        self.drain(written);
        written
    }

    /// Copies out up to `limit` bytes; when this reaches the next body, the body comes too.
    pub fn take_write(&mut self, limit: usize, out: &mut Vec<u8>) -> (r: Write)
        requires
            old(self).wf(),
        ensures
            final(self).wf(),
            ({
                let n: nat = if limit < old(self)@.ready() {
                    limit as nat
                } else {
                    old(self)@.ready()
                };
                &&& final(out)@ == old(out)@ + old(self)@.bytes.subrange(0, n as int)
                &&& if old(self)@.payloads.len() > 0 && n == old(self)@.ready() {
                    final(self)@ == old(self)@.drained(n as int).body_taken() && (
                    r matches Write::Split { prefix_len, body } && prefix_len == n && body@
                        == old(self)@.payloads[0].body)
                } else {
                    final(self)@ == old(self)@.drained(n as int) && r == Write::Buffered(n as usize)
                }
            }),
    {
        let ghost before = self@;
        let has_body = self.payloads.len() > 0;
        let ready: usize = self.ready_len();
        let written: usize = self.drain_into(limit, out);
        if !has_body || written != ready {
            return Write::Buffered(written);
        }
        let ghost mid = self@;
        match self.payloads.pop_front() {
            None => Write::Buffered(written),
            Some(first) => {
                assert(self@.payloads =~= mid.payloads.drop_first());
                assert(mid.payloads[0] == (PayloadView {
                    prefix: first.prefix_len as nat,
                    body: first.body@,
                }));
                self.payload_bytes = self.payload_bytes - first.body.len();
                assert(self@ =~= mid.body_taken());
                Write::Split { prefix_len: written, body: first.body }
            },
        }
    }

    pub fn len(&self) -> (r: usize)
        requires
            self.wf(),
        ensures
            r == self@.len(),
    {
        self.bytes.len() + self.payload_bytes
    }

    /// Whether `additional` bytes find room.
    pub fn reserve(&self, additional: usize) -> (r: Result<(), ConnError>)
        requires
            self.wf(),
        ensures
            r == (if self@.has_room(additional as int) {
                Ok::<(), ConnError>(())
            } else {
                Err(ConnError::Overload)
            }),
    {
        let free: usize = self.bytes.capacity() - self.len();
        if additional > free {
            Err(ConnError::Overload)
        } else {
            Ok(())
        }
    }

    /// Appends bytes that find room.
    pub fn write(&mut self, more: &[u8])
        requires
            old(self).wf(),
            old(self)@.has_room(more@.len() as int),
        ensures
            final(self).wf(),
            final(self)@ == old(self)@.with(more@),
    {
        let _ = self.bytes.try_extend(more);
        self.unassigned_prefix = self.unassigned_prefix + more.len();
    }

    /// Appends a body that finds room.
    pub fn queue_shared(&mut self, body: Vec<u8>)
        requires
            old(self).wf(),
            old(self)@.has_room(body@.len() as int),
        ensures
            final(self).wf(),
            final(self)@ == old(self)@.with_body(body@),
    {
        if body.len() == 0 {
            return;
        }
        let ghost before = self@;
        let ghost p = PayloadView { prefix: before.unassigned, body: body@ };
        proof {
            lemma_payload_push(before.payloads, p);
        }
        self.payload_bytes = self.payload_bytes + body.len();
        let prefix_len: usize = self.unassigned_prefix;
        self.unassigned_prefix = 0;
        self.payloads.push_back(SharedPayload { prefix_len, body });
        assert(self@.payloads =~= before.payloads.push(p));
    }

    /// Announces the settings.
    pub fn initial_settings(&mut self, settings: &Settings) -> (r: Result<(), ConnError>)
        requires
            old(self).wf(),
        ensures
            final(self).wf(),
            ({
                let wire = frame::frame_wire(
                    FrameView::Settings { ack: false, params: settings::settings_wire(*settings) },
                );
                if old(self)@.has_room(wire.len() as int) {
                    r is Ok && final(self)@ == old(self)@.with(wire)
                } else {
                    r == Err::<(), ConnError>(ConnError::Overload) && final(self)@ == old(self)@
                }
            }),
    {
        let mut params: Vec<u8> = Vec::new();
        settings.encode(&mut params);
        let count: usize = settings.param_count();
        assert(params@ =~= settings::settings_wire(*settings));
        let mut wire: Vec<u8> = Vec::new();
        match frame::Settings::new(false, params.as_slice()) {
            Some(frame) => frame.encode(&mut wire),
            None => return Err(ConnError::FrameSize),
        }
        assert(wire@ =~= frame::frame_wire(
            FrameView::Settings { ack: false, params: settings::settings_wire(*settings) },
        ));
        match self.reserve(wire.len()) {
            Ok(_) => {},
            Err(error) => return Err(error),
        }
        self.write(wire.as_slice());
        Ok(())
    }

    /// Acknowledges the settings of the peer.
    pub fn settings_ack(&mut self) -> (r: Result<(), ConnError>)
        requires
            old(self).wf(),
        ensures
            final(self).wf(),
            if old(self)@.has_room(HEADER_LEN as int) {
                r is Ok && final(self)@ == old(self)@.with(
                    frame::frame_wire(FrameView::Settings { ack: true, params: Seq::empty() }),
                )
            } else {
                r == Err::<(), ConnError>(ConnError::Overload) && final(self)@ == old(self)@
            },
    {
        match self.reserve(HEADER_LEN) {
            Ok(_) => {},
            Err(error) => return Err(error),
        }
        let empty: Vec<u8> = Vec::new();
        let mut wire: Vec<u8> = Vec::new();
        match frame::Settings::new(true, empty.as_slice()) {
            Some(frame) => frame.encode(&mut wire),
            None => return Err(ConnError::FrameSize),
        }
        assert(empty@ =~= Seq::empty());
        assert(wire@ =~= frame::frame_wire(
            FrameView::Settings { ack: true, params: Seq::empty() },
        ));
        self.write(wire.as_slice());
        Ok(())
    }

    /// Announces more room in a window.
    pub fn window_update(&mut self, stream_id: StreamId, increment: WindowIncrement) -> (r: Result<
        (),
        ConnError,
    >)
        requires
            old(self).wf(),
        ensures
            final(self).wf(),
            if old(self)@.has_room(HEADER_LEN + 4) {
                r is Ok && final(self)@ == old(self)@.with(
                    frame::frame_wire(
                        FrameView::WindowUpdate {
                            stream: stream_id.value(),
                            increment: increment.value(),
                        },
                    ),
                )
            } else {
                r == Err::<(), ConnError>(ConnError::Overload) && final(self)@ == old(self)@
            },
    {
        match self.reserve(HEADER_LEN + 4) {
            Ok(_) => {},
            Err(error) => return Err(error),
        }
        let mut wire: Vec<u8> = Vec::new();
        let frame = WindowUpdate { stream_id, increment };
        frame.encode(&mut wire);
        assert(wire@ =~= frame::frame_wire(frame@));
        self.write(wire.as_slice());
        Ok(())
    }

    /// Resets a stream.
    pub fn reset(&mut self, stream_id: StreamId, error: ErrorCode) -> (r: Result<(), ConnError>)
        requires
            old(self).wf(),
        ensures
            final(self).wf(),
            if !old(self)@.has_room(HEADER_LEN + 4) {
                r == Err::<(), ConnError>(ConnError::Overload) && final(self)@ == old(self)@
            } else if stream_id.value() == 0 {
                r == Err::<(), ConnError>(ConnError::Protocol) && final(self)@ == old(self)@
            } else {
                r is Ok && final(self)@ == old(self)@.with(
                    frame::frame_wire(FrameView::RstStream { stream: stream_id.value(), error }),
                )
            },
    {
        match self.reserve(HEADER_LEN + 4) {
            Ok(_) => {},
            Err(error) => return Err(error),
        }
        let mut wire: Vec<u8> = Vec::new();
        match RstStream::new(stream_id, error) {
            Some(frame) => {
                frame.encode(&mut wire);
            },
            None => return Err(ConnError::Protocol),
        }
        assert(wire@ =~= frame::frame_wire(
            FrameView::RstStream { stream: stream_id.value(), error },
        ));
        self.write(wire.as_slice());
        Ok(())
    }

    /// The peer has set the size of its table.
    pub fn set_header_table_size(&mut self, size: usize)
        requires
            old(self).wf(),
            size <= dynamic_table::table_cap(),
        ensures
            final(self).wf(),
            final(self)@ == (EgressView {
                encoder: encoder::resized_encoder(old(self)@.encoder, size as nat),
                ..old(self)@
            }),
    {
        self.encoder.set_max_size(size);
    }

    /// Sends a block of header fields.
    pub fn headers(
        &mut self,
        stream_id: StreamId,
        headers: &[Header<'_>],
        end_stream: bool,
        max_frame: usize,
    ) -> (r: Result<(), ConnError>)
        requires
            old(self).wf(),
            0 < max_frame <= FrameLength::MAX,
        ensures
            final(self).wf(),
            (final(self)@, r) == headers_sent(
                old(self)@,
                stream_id.value(),
                encoder::header_views(headers@),
                end_stream,
                max_frame as int,
            ),
    {
        let ghost before = self@;
        let ghost list = encoder::header_views(headers@);
        let mut block: Vec<u8> = Vec::new();
        self.encoder.encode(headers, &mut block);
        assert(block@ =~= encoder::block_wire(before.encoder, list));
        let ghost after = self@;
        assert(after =~= EgressView {
            encoder: encoder::after_block(before.encoder, list),
            ..before
        });
        proof {
            lemma_header_len(stream_id.value(), block@, end_stream, max_frame as int);
        }
        let capacity: usize = self.bytes.capacity();
        if block.len() > capacity {
            proof {
                lemma_frame_count_positive(block@.len() as int, max_frame as int);
            }
            return Err(ConnError::Overload);
        }
        let raw: u32 = stream_id.as_u32();
        let total: usize = Self::frames_len(block.len(), max_frame);
        match self.reserve(total) {
            Ok(_) => {},
            Err(error) => return Err(error),
        }
        if raw == 0 {
            return Err(ConnError::FrameSize);
        }
        let mut wire: Vec<u8> = Vec::new();
        let whole = block.len() <= max_frame;
        let first_len: usize = if whole {
            block.len()
        } else {
            max_frame
        };
        match Headers::new(stream_id, end_stream, whole, None, &block[0..first_len]) {
            Some(frame) => {
                frame.encode(&mut wire);
            },
            None => return Err(ConnError::FrameSize),
        }
        let ghost first = frame::frame_wire(
            FrameView::Headers {
                stream: raw,
                end_stream,
                end_headers: whole,
                priority: None,
                fragment: block@.subrange(0, first_len as int),
            },
        );
        assert(wire@ =~= first);
        if whole {
            assert(block@.subrange(0, first_len as int) =~= block@);
        } else {
            Self::continuations(stream_id, &block[max_frame..block.len()], max_frame, &mut wire);
        }
        assert(wire@ =~= header_frames(raw, block@, end_stream, max_frame as int));
        self.write(wire.as_slice());
        Ok(())
    }

    /// The bytes of the frames for a block.
    fn frames_len(len: usize, max_frame: usize) -> (r: usize)
        requires
            len <= isize::MAX,
            0 < max_frame,
        ensures
            r == (if len + HEADER_LEN * frame_count(len as int, max_frame as int) > usize::MAX {
                usize::MAX as int
            } else {
                len + HEADER_LEN * frame_count(len as int, max_frame as int)
            }),
    {
        let mut count: usize = 1;
        let mut left: usize = len;
        while left > max_frame
            invariant
                0 < max_frame,
                left <= len,
                count + left <= len + 1,
                len <= isize::MAX,
                frame_count(len as int, max_frame as int) == count - 1 + frame_count(
                    left as int,
                    max_frame as int,
                ),
            decreases left,
        {
            left = left - max_frame;
            count = count + 1;
        }
        match count.checked_mul(HEADER_LEN) {
            Some(heads) => heads.saturating_add(len),
            None => usize::MAX,
        }
    }

    fn continuations(stream_id: StreamId, rest: &[u8], max_frame: usize, out: &mut Vec<u8>)
        requires
            stream_id.value() != 0,
            0 < max_frame <= FrameLength::MAX,
        ensures
            final(out)@ == old(out)@ + continuation_frames(
                stream_id.value(),
                rest@,
                max_frame as int,
            ),
    {
        let ghost start = out@;
        let ghost stream = stream_id.value();
        let ghost all = continuation_frames(stream, rest@, max_frame as int);
        let mut position: usize = 0;
        assert(rest@.subrange(0, rest@.len() as int) =~= rest@);
        while rest.len() - position > max_frame
            invariant
                stream == stream_id.value(),
                stream != 0,
                0 < max_frame <= FrameLength::MAX,
                0 <= position <= rest@.len(),
                start + all == out@ + continuation_frames(
                    stream,
                    rest@.subrange(position as int, rest@.len() as int),
                    max_frame as int,
                ),
            decreases rest@.len() - position,
        {
            let ghost tail = rest@.subrange(position as int, rest@.len() as int);
            let ghost before = out@;
            let end: usize = position + max_frame;
            if let Some(frame) = Continuation::new(stream_id, false, &rest[position..end]) {
                frame.encode(out);
            }
            assert(tail.subrange(0, max_frame as int) =~= rest@.subrange(
                position as int,
                end as int,
            ));
            assert(tail.subrange(max_frame as int, tail.len() as int) =~= rest@.subrange(
                end as int,
                rest@.len() as int,
            ));
            assert(out@ + continuation_frames(
                stream,
                rest@.subrange(end as int, rest@.len() as int),
                max_frame as int,
            ) =~= before + continuation_frames(stream, tail, max_frame as int));
            position = end;
        }
        if let Some(frame) = Continuation::new(stream_id, true, &rest[position..rest.len()]) {
            frame.encode(out);
        }
        assert(out@ =~= start + all);
    }

    /// The header of a DATA frame, and the bytes behind it.
    pub fn data(
        &mut self,
        stream_id: StreamId,
        end_stream: bool,
        first: &[u8],
        second: &[u8],
        length: FrameLength,
    )
        requires
            old(self).wf(),
            length.value() <= first@.len() + second@.len(),
            old(self)@.has_room(HEADER_LEN + length.value()),
        ensures
            final(self).wf(),
            final(self)@ == old(self)@.with(
                data_head(stream_id.value(), end_stream, length.value()) + (first@
                    + second@).subrange(0, length.value() as int),
            ),
    {
        let mut wire: Vec<u8> = Vec::new();
        Data::encode_header(stream_id, end_stream, length, &mut wire);
        let len: usize = length.as_usize();
        let first_len: usize = if len < first.len() {
            len
        } else {
            first.len()
        };
        push_bytes(&mut wire, &first[0..first_len]);
        push_bytes(&mut wire, &second[0..len - first_len]);
        assert(first@.subrange(0, first_len as int) + second@.subrange(0, len - first_len) =~= (
        first@ + second@).subrange(0, len as int));
        assert(wire@ =~= data_head(stream_id.value(), end_stream, length.value()) + (first@
            + second@).subrange(0, len as int));
        self.write(wire.as_slice());
    }

    /// The header of a DATA frame, and a body behind it.
    pub fn data_shared(
        &mut self,
        stream_id: StreamId,
        end_stream: bool,
        body: Vec<u8>,
        length: FrameLength,
    )
        requires
            old(self).wf(),
            length.value() == body@.len(),
            old(self)@.has_room(HEADER_LEN + length.value()),
        ensures
            final(self).wf(),
            final(self)@ == old(self)@.with(
                data_head(stream_id.value(), end_stream, length.value()),
            ).with_body(body@),
    {
        let mut wire: Vec<u8> = Vec::new();
        Data::encode_header(stream_id, end_stream, length, &mut wire);
        assert(wire@ =~= data_head(stream_id.value(), end_stream, length.value()));
        self.write(wire.as_slice());
        self.queue_shared(body);
    }
}

proof fn lemma_frame_count_positive(len: int, max_frame: int)
    ensures
        frame_count(len, max_frame) >= 1,
    decreases len,
{
    if len > max_frame && max_frame > 0 {
        lemma_frame_count_positive(len - max_frame, max_frame);
    }
}

/// Sending a block of header fields. The encoder has moved on even where the block finds no
/// room.
pub open spec fn headers_sent(
    v: EgressView,
    stream: u32,
    list: Seq<crate::h2::hpack::FieldView>,
    end_stream: bool,
    max_frame: int,
) -> (EgressView, Result<(), ConnError>) {
    let block = encoder::block_wire(v.encoder, list);
    let next = EgressView { encoder: encoder::after_block(v.encoder, list), ..v };
    let wire = header_frames(stream, block, end_stream, max_frame);
    if !v.has_room(wire.len() as int) {
        (next, Err(ConnError::Overload))
    } else if stream == 0 {
        (next, Err(ConnError::FrameSize))
    } else {
        (next.with(wire), Ok(()))
    }
}

} // verus!
