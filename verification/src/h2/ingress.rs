//! What came in: bytes that were not used yet, blocks of header fields under way, and events
//! that were not taken yet.

use crate::bytes;
use crate::collections;
use crate::collections::{GrowingPool, Permit, Pool, PoolPlan, Queue, Spot, Supply};
use crate::h2::error::ConnError;
use crate::h2::event;
use crate::h2::event::{DataPayload, Event, EventView, HeaderBlock};
use crate::h2::frame;
use crate::h2::frame::{FrameHeader, HeadView, ParseError, HEADER_LEN};
use crate::h2::hpack;
use crate::h2::hpack::dynamic_table;
use crate::h2::hpack::dynamic_table::TableView;
use crate::h2::hpack::machine;
use crate::h2::hpack::machine::{Machine, PhaseView};
use crate::h2::hpack::{Decoder, DecoderBlock, DecoderError, FieldView, OwnedHeader};
use crate::h2::retained_segments::{InputView, RetainedSegments};
use crate::h2::stream::StreamId;
use crate::h2::validate;
use crate::h2::validate::valid_list;
use vstd::prelude::*;

verus! {

/// What a client sends before its first frame.
pub open spec fn preface() -> Seq<u8> {
    bytes::text("PRI * HTTP/2.0\r\n\r\nSM\r\n\r\n")
}

/// The length of the preface.
pub const PREFACE_LEN: usize = 24;

pub proof fn lemma_preface_len()
    ensures
        preface().len() == PREFACE_LEN,
{
    reveal_strlit("PRI * HTTP/2.0\r\n\r\nSM\r\n\r\n");
    bytes::lemma_text("PRI * HTTP/2.0\r\n\r\nSM\r\n\r\n");
}

/// The preface as bytes.
pub fn client_preface() -> (r: &'static [u8])
    ensures
        r@ == preface(),
        r@.len() == PREFACE_LEN,
{
    proof {
        lemma_preface_len();
    }
    bytes::text_bytes("PRI * HTTP/2.0\r\n\r\nSM\r\n\r\n")
}

/// What a block of header fields that is not complete will become.
#[derive(Copy, Clone, Debug)]
pub enum PendingKind {
    Headers { end_stream: bool, trailing: bool },
    PushPromise { promised: StreamId },
}

/// A block of header fields that continues in further frames.
#[derive(Copy, Clone, Debug)]
pub struct PendingHeaders {
    pub stream_id: StreamId,
    pub kind: PendingKind,
    pub continuations: u32,
}

pub enum PendingKindView {
    Headers { end_stream: bool, trailing: bool },
    PushPromise { promised: u32 },
}

pub struct PendingView {
    pub stream: u32,
    pub kind: PendingKindView,
    pub continuations: u32,
}

impl PendingHeaders {
    pub open spec fn view(&self) -> PendingView {
        PendingView {
            stream: self.stream_id.value(),
            kind: match self.kind {
                PendingKind::Headers { end_stream, trailing } => PendingKindView::Headers {
                    end_stream,
                    trailing,
                },
                PendingKind::PushPromise { promised } => PendingKindView::PushPromise {
                    promised: promised.value(),
                },
            },
            continuations: self.continuations,
        }
    }
}

pub open spec fn pending_view(pending: Option<PendingHeaders>) -> Option<PendingView> {
    match pending {
        Some(p) => Some(p@),
        None => None,
    }
}

/// A block of header fields that is being read: how far the reader has come, how many bytes
/// it took, and what the block is for.
pub struct ActiveView {
    pub machine: Machine,
    pub wire_len: nat,
    pub request: bool,
    pub trailing: bool,
}

/// What came in and was not used yet.
#[verifier::ext_equal]
pub struct IngressView {
    pub input: InputView,
    pub events: Seq<EventView>,
    pub event_capacity: nat,
    pub header_cap: nat,
    pub table: TableView,
    pub setting: nat,
    pub active: Option<ActiveView>,
    pub pending: Option<PendingView>,
    pub preface_done: bool,
    pub data_places: Supply,
    pub header_places: Supply,
}

/// A block that was read: its fields, and whether it must not be delivered.
pub struct BlockView {
    pub fields: Seq<FieldView>,
    pub invalid: bool,
}

impl IngressView {
    /// The reader at the start of a block.
    pub open spec fn start(self) -> Machine {
        Machine {
            table: self.table,
            setting: self.setting,
            cap: self.header_cap,
            phase: PhaseView::Representation,
            used: 0,
            exceeded: false,
            allow_update: true,
            out: Seq::empty(),
        }
    }

    /// Whether another event finds room.
    pub open spec fn event_room(self) -> bool {
        self.events.len() < self.event_capacity
    }

    /// With another event.
    pub open spec fn with_event(self, event: EventView) -> IngressView {
        IngressView { events: self.events.push(event), ..self }
    }

    /// After a place for data was asked for, and given or not.
    pub open spec fn asked_for_data(self, given: bool) -> IngressView {
        IngressView { data_places: self.data_places.asked(given), ..self }
    }

    /// After a place for header fields was asked for, and given or not.
    pub open spec fn asked_for_headers(self, given: bool) -> IngressView {
        IngressView { header_places: self.header_places.asked(given), ..self }
    }

    /// After a place for data was given back.
    pub open spec fn data_back(self) -> IngressView {
        IngressView { data_places: self.data_places.back(), ..self }
    }

    /// After a place for header fields was given back.
    pub open spec fn headers_back(self) -> IngressView {
        IngressView { header_places: self.header_places.back(), ..self }
    }

    /// After the place that an event holds was given back.
    pub open spec fn event_back(self, event: EventView) -> IngressView {
        if event::holds_data(event) {
            self.data_back()
        } else if event::holds_headers(event) {
            self.headers_back()
        } else {
            self
        }
    }

    /// After an event was taken by an owner who keeps its data alone.
    pub open spec fn keeping_data(self, event: EventView) -> IngressView {
        if event is Data {
            self
        } else {
            self.event_back(event)
        }
    }

    /// After an event was taken by an owner who keeps the header fields of requests alone.
    pub open spec fn keeping_headers(self, event: EventView) -> IngressView {
        if event is Headers {
            self
        } else {
            self.event_back(event)
        }
    }

    /// Without the first bytes.
    pub open spec fn consumed(self, n: int) -> IngressView {
        IngressView { input: self.input.without(n), ..self }
    }
}

/// Reading a whole block. A block that lies in one chunk is read field by field, any other
/// byte by byte: this makes a difference only to which error a bad block brings.
pub open spec fn whole_block(m: Machine, s: Seq<u8>, contiguous: bool) -> Result<
    Machine,
    (Machine, DecoderError),
> {
    if contiguous {
        machine::block_at(m, s)
    } else {
        match machine::feed(m, s) {
            Err(stop) => Err(stop),
            Ok(end) => if end.phase is Representation {
                Ok(end)
            } else {
                Err((end, DecoderError::NeedMore))
            },
        }
    }
}

/// The block that a reader has come to the end of.
pub open spec fn block_of(m: Machine, request: bool, trailing: bool) -> BlockView {
    BlockView {
        fields: m.out,
        invalid: m.exceeded || !validate::list_valid(m.out, request, trailing),
    }
}

/// Reading a block that is complete; `free` says whether the pool gave a place for it.
pub open spec fn completed_with(
    v: IngressView,
    s: Seq<u8>,
    contiguous: bool,
    request: bool,
    trailing: bool,
    free: bool,
) -> (IngressView, Result<BlockView, ConnError>) {
    if s.len() > v.header_cap {
        (v, Err(ConnError::HeaderListTooLarge))
    } else if !free {
        (v, Err(ConnError::Overload))
    } else {
        match whole_block(v.start(), s, contiguous) {
            Err((m, error)) => (
                IngressView { table: m.table, ..v.headers_back() },
                Err(ConnError::Hpack(error)),
            ),
            Ok(m) => (IngressView { table: m.table, ..v }, Ok(block_of(m, request, trailing))),
        }
    }
}

/// Reading a block that is complete. Where the pool has given out as many places as it has,
/// `place` says whether it gives one more.
pub open spec fn completed(
    v: IngressView,
    s: Seq<u8>,
    contiguous: bool,
    request: bool,
    trailing: bool,
    place: bool,
) -> (IngressView, Result<BlockView, ConnError>) {
    if s.len() > v.header_cap {
        (v, Err(ConnError::HeaderListTooLarge))
    } else {
        let free = v.header_places.gives(place);
        completed_with(v.asked_for_headers(free), s, contiguous, request, trailing, free)
    }
}

/// Reading the first part of a block; `free` says whether the pool gave a place for it.
pub open spec fn begun_with(
    v: IngressView,
    s: Seq<u8>,
    request: bool,
    trailing: bool,
    free: bool,
) -> (IngressView, Result<(), ConnError>) {
    if v.active is Some {
        (v, Err(ConnError::Continuation))
    } else if s.len() > v.header_cap {
        (v, Err(ConnError::HeaderListTooLarge))
    } else if !free {
        (v, Err(ConnError::Overload))
    } else {
        match machine::feed(v.start(), s) {
            Err((m, error)) => (
                IngressView { table: m.table, ..v.headers_back() },
                Err(ConnError::Hpack(error)),
            ),
            Ok(m) => (
                IngressView {
                    table: m.table,
                    active: Some(
                        ActiveView { machine: m, wire_len: s.len(), request, trailing },
                    ),
                    ..v
                },
                Ok(()),
            ),
        }
    }
}

/// Reading the first part of a block. Where the pool has given out as many places as it has,
/// `place` says whether it gives one more.
pub open spec fn begun(
    v: IngressView,
    s: Seq<u8>,
    request: bool,
    trailing: bool,
    place: bool,
) -> (IngressView, Result<(), ConnError>) {
    if v.active is Some {
        (v, Err(ConnError::Continuation))
    } else if s.len() > v.header_cap {
        (v, Err(ConnError::HeaderListTooLarge))
    } else {
        let free = v.header_places.gives(place);
        begun_with(v.asked_for_headers(free), s, request, trailing, free)
    }
}

/// Reading a further part of a block. A block that turns out bad stays under way, as the reader
/// leaves it.
pub open spec fn continued(v: IngressView, s: Seq<u8>) -> (IngressView, Result<(), ConnError>) {
    match v.active {
        None => (v, Err(ConnError::Continuation)),
        Some(active) => if active.wire_len + s.len() > v.header_cap {
            (v, Err(ConnError::HeaderListTooLarge))
        } else {
            let (m, result) = match machine::feed(active.machine, s) {
                Err((m, error)) => (m, Err(ConnError::Hpack(error))),
                Ok(m) => (m, Ok(())),
            };
            (
                IngressView {
                    table: m.table,
                    active: Some(
                        ActiveView { machine: m, wire_len: active.wire_len + s.len(), ..active },
                    ),
                    ..v
                },
                result,
            )
        },
    }
}

/// Coming to the end of a block that was read in parts.
pub open spec fn finished(v: IngressView) -> (IngressView, Result<BlockView, ConnError>) {
    let next = IngressView { active: None, ..v };
    match v.active {
        None => (next, Err(ConnError::Continuation)),
        Some(active) => if active.machine.phase is Representation {
            (next, Ok(block_of(active.machine, active.request, active.trailing)))
        } else {
            (next.headers_back(), Err(ConnError::Hpack(DecoderError::NeedMore)))
        },
    }
}

/// The preface of the peer: whether it is there.
pub open spec fn preface_accepted(v: IngressView) -> (IngressView, Result<bool, ConnError>) {
    let s = v.input.bytes();
    if v.preface_done {
        (v, Ok(true))
    } else if s.len() < PREFACE_LEN {
        (v, Ok(false))
    } else if s.subrange(0, PREFACE_LEN as int) != preface() {
        (v, Err(ConnError::BadPreface))
    } else if !v.event_room() {
        (v, Err(ConnError::Overload))
    } else {
        (
            IngressView { preface_done: true, ..v.consumed(PREFACE_LEN as int) }.with_event(
                EventView::PrefaceComplete,
            ),
            Ok(true),
        )
    }
}

/// What stands at the start of the input.
pub enum FrontView {
    /// Nothing that is complete.
    Wait,
    /// A frame of a type that is not known, which is passed over.
    Unknown(nat),
    /// A frame with its header.
    Frame(HeadView),
}

/// What stands at the start of `s`.
pub open spec fn front(s: Seq<u8>, max_frame_size: u32) -> Result<FrontView, ConnError> {
    match frame::head_at(s) {
        Err(ParseError::NeedMore) => Ok(FrontView::Wait),
        Err(ParseError::BadType(_)) => {
            let length = bytes::be24(s, 0);
            if length > max_frame_size {
                Err(ConnError::FrameSize)
            } else if s.len() < HEADER_LEN + length {
                Ok(FrontView::Wait)
            } else {
                Ok(FrontView::Unknown((HEADER_LEN + length) as nat))
            }
        },
        Err(error) => Err(ConnError::ParseError(error)),
        Ok(h) => if h.length > max_frame_size {
            Err(ConnError::FrameSize)
        } else if s.len() < HEADER_LEN + h.length {
            Ok(FrontView::Wait)
        } else {
            Ok(FrontView::Frame(h))
        },
    }
}

/// What stands at the start of the input.
pub enum Front {
    Wait,
    Unknown(usize),
    Frame(FrameHeader),
}

impl Front {
    pub open spec fn view(&self) -> FrontView {
        match self {
            Front::Wait => FrontView::Wait,
            Front::Unknown(total) => FrontView::Unknown(*total as nat),
            Front::Frame(header) => FrontView::Frame(header@),
        }
    }
}

/// What `Ingress` is built from.
pub struct IngressConfig {
    pub inbound_capacity: usize,
    pub event_capacity: usize,
    pub data_plan: PoolPlan,
    pub header_plan: PoolPlan,
    pub decoder_table_size: usize,
    pub header_cap: usize,
    pub preface_done: bool,
}

struct ActiveHeaders {
    block: DecoderBlock,
    fields: Vec<OwnedHeader>,
    spot: Spot,
    wire_len: usize,
    request: bool,
    trailing: bool,
}

pub struct Ingress {
    bytes: RetainedSegments,
    events: Queue<Event>,
    data_permits: Pool,
    header_pool: GrowingPool,
    decoder: Decoder,
    active_headers: Option<ActiveHeaders>,
    pending_headers: Option<PendingHeaders>,
    header_cap: usize,
    preface_done: bool,
}

spec fn active_view(active: Option<ActiveHeaders>, decoder: Decoder) -> Option<ActiveView> {
    match active {
        None => None,
        Some(a) => Some(
            ActiveView {
                machine: a.block.machine(&decoder, hpack::fields(a.fields@)),
                wire_len: a.wire_len as nat,
                request: a.request,
                trailing: a.trailing,
            },
        ),
    }
}

/// What holds of what came in: the input and the events keep their limits, and a block under
/// way keeps the limit for blocks.
pub open spec fn ingress_inv(v: IngressView) -> bool {
    &&& v.input.bytes().len() <= v.input.byte_capacity
    &&& v.events.len() <= v.event_capacity
    &&& v.active matches Some(a) ==> a.wire_len <= v.header_cap && a.machine.table == v.table
    &&& v.active is Some ==> v.pending is Some
}

impl Ingress {
    pub closed spec fn view(&self) -> IngressView {
        IngressView {
            input: self.bytes@,
            events: event::event_views(self.events.items()),
            event_capacity: self.events.limit(),
            header_cap: self.header_cap as nat,
            table: self.decoder.table(),
            setting: self.decoder.setting(),
            active: active_view(self.active_headers, self.decoder),
            pending: pending_view(self.pending_headers),
            preface_done: self.preface_done,
            data_places: self.data_permits.supply(),
            header_places: self.header_pool.supply(),
        }
    }

    /// What holds of the parts, apart from `ingress_inv`.
    spec fn parts(&self) -> bool {
        &&& self.bytes.wf()
        &&& self.header_pool.wf()
        &&& self.decoder.wf()
        &&& self.decoder.list_limit() == Some(self.header_cap)
        &&& self.active_headers matches Some(a) ==> a.block.of(&self.decoder) && a.wire_len
            <= self.header_cap && a.spot.within(self.header_parts())
        &&& forall|i: int|
            0 <= i < self.events.items().len() ==> (#[trigger] self.events.items()[i]).placed(
                self.data_pool(),
                self.header_parts(),
            )
    }

    /// The pool for data.
    pub closed spec fn data_pool(&self) -> int {
        self.data_permits.id()
    }

    /// The parts of the pool for header fields.
    pub closed spec fn header_parts(&self) -> Seq<int> {
        self.header_pool.parts()
    }

    /// Whether the pools are the ones that they were, with no parts added.
    pub open spec fn same_pools(&self, before: &Self) -> bool {
        self.data_pool() == before.data_pool() && self.header_parts() == before.header_parts()
    }

    /// Takes the place of data back, and leaves the bytes.
    pub fn reclaim_data(&mut self, data: DataPayload) -> (r: Vec<u8>)
        requires
            old(self).wf(),
            data.place_of() == old(self).data_pool(),
        ensures
            final(self).wf(),
            r@ == data@,
            final(self)@ == old(self)@.data_back(),
            final(self).same_pools(old(self)),
    {
        let (bytes, permit) = data.into_parts();
        self.data_permits.give_back(permit);
        bytes
    }

    /// Takes the place of a block of header fields back, and leaves the fields.
    pub fn reclaim_headers(&mut self, headers: HeaderBlock) -> (r: Vec<OwnedHeader>)
        requires
            old(self).wf(),
            headers.within(old(self).header_parts()),
        ensures
            final(self).wf(),
            hpack::fields(r@) == headers@,
            final(self)@ == old(self)@.headers_back(),
            final(self).same_pools(old(self)),
    {
        let (fields, spot) = headers.into_parts();
        self.header_pool.give_back(spot);
        fields
    }

    /// Takes the place that an event holds back.
    pub fn reclaim_event(&mut self, event: Event)
        requires
            old(self).wf(),
            event.placed(old(self).data_pool(), old(self).header_parts()),
        ensures
            final(self).wf(),
            final(self)@ == old(self)@.event_back(event@),
            final(self).same_pools(old(self)),
    {
        match event {
            Event::GoAway { debug, .. } => {
                let _ = self.reclaim_data(debug);
            },
            Event::Data { data, .. } => {
                let _ = self.reclaim_data(data);
            },
            Event::Headers { headers, .. } => {
                let _ = self.reclaim_headers(headers);
            },
            Event::PushPromise { headers, .. } => {
                let _ = self.reclaim_headers(headers);
            },
            _ => {},
        }
    }

    pub closed spec fn wf(&self) -> bool {
        self.parts() && ingress_inv(self@)
    }

    pub proof fn lemma_wf(&self)
        requires
            self.wf(),
        ensures
            ingress_inv(self@),
            self@.header_cap <= usize::MAX,
            self@.input.byte_capacity <= usize::MAX,
    {
    }

    pub fn from_config(config: IngressConfig) -> (r: Self)
        requires
            config.event_capacity <= u32::MAX,
            config.decoder_table_size <= dynamic_table::table_cap(),
        ensures
            r.wf(),
            r@ == (IngressView {
                input: InputView {
                    chunks: Seq::empty(),
                    byte_capacity: config.inbound_capacity as nat,
                    chunk_capacity: chunk_limit(
                        config.data_plan.slots() as int,
                        config.header_plan.slots() as int,
                    ),
                },
                events: Seq::empty(),
                event_capacity: config.event_capacity as nat,
                header_cap: config.header_cap as nat,
                table: TableView {
                    fields: Seq::empty(),
                    max: config.decoder_table_size as nat,
                },
                setting: config.decoder_table_size as nat,
                active: None,
                pending: None,
                preface_done: config.preface_done,
                data_places: Supply { limit: config.data_plan.slots() as nat, out: 0 },
                header_places: Supply { limit: config.header_plan.slots() as nat, out: 0 },
            }),
    {
        let mut decoder = Decoder::new(config.decoder_table_size);
        decoder.set_max_header_list_size(Some(config.header_cap));
        let chunk_capacity: usize = config.data_plan.max_slots().saturating_add(
            config.header_plan.max_slots(),
        ).saturating_add(1);
        let r = Ingress {
            bytes: RetainedSegments::new(config.inbound_capacity, chunk_capacity),
            events: Queue::with_capacity(config.event_capacity),
            data_permits: config.data_plan.pool_up_to(config.data_plan.max_slots()),
            header_pool: GrowingPool::from_plan(config.header_plan),
            decoder,
            active_headers: None,
            pending_headers: None,
            header_cap: config.header_cap,
            preface_done: config.preface_done,
        };
        assert(r@.events =~= Seq::<EventView>::empty());
        assert(r@.input.bytes().len() == 0);
        r
    }

    /// Takes bytes from the peer.
    pub fn append(&mut self, bytes: &[u8]) -> (r: Result<(), ConnError>)
        requires
            old(self).wf(),
        ensures
            final(self).wf(),
            r == (if old(self)@.input.has_room(bytes@.len() as int) {
                Ok::<(), ConnError>(())
            } else {
                Err(ConnError::Overload)
            }),
            final(self)@ == (if r is Ok {
                IngressView { input: old(self)@.input.with(bytes@), ..old(self)@ }
            } else {
                old(self)@
            }),
    {
        if self.bytes.push(bytes) {
            Ok(())
        } else {
            Err(ConnError::Overload)
        }
    }

    pub fn accept_preface(&mut self) -> (r: Result<bool, ConnError>)
        requires
            old(self).wf(),
        ensures
            final(self).wf(),
            (final(self)@, r) == preface_accepted(old(self)@),
    {
        if self.preface_done {
            return Ok(true);
        }
        if self.bytes.len() < PREFACE_LEN {
            return Ok(false);
        }
        match self.bytes.retained_range(0, PREFACE_LEN) {
            None => return Ok(false),
            Some(start) => {
                if !bytes::equal(start.as_slice(), client_preface()) {
                    return Err(ConnError::BadPreface);
                }
            },
        }
        if self.events.is_full() {
            return Err(ConnError::Overload);
        }
        let ghost before = self@;
        let _ = self.bytes.try_consume(PREFACE_LEN);
        self.preface_done = true;
        let pushed = self.push_event(Event::PrefaceComplete);
        assert(pushed is Ok);
        Ok(true)
    }

    /// What stands at the start of the input.
    pub fn next_frame(&self, max_frame_size: u32) -> (r: Result<Front, ConnError>)
        requires
            self.wf(),
        ensures
            match r {
                Ok(at) => front(self@.input.bytes(), max_frame_size) == Ok::<FrontView, ConnError>(
                    at@,
                ),
                Err(error) => front(self@.input.bytes(), max_frame_size) == Err::<
                    FrontView,
                    ConnError,
                >(error),
            },
            r matches Ok(Front::Unknown(total)) ==> HEADER_LEN <= total
                <= self@.input.bytes().len(),
            r matches Ok(Front::Frame(header)) ==> HEADER_LEN + header.length.value()
                <= self@.input.bytes().len(),
    {
        let ghost s = self@.input.bytes();
        match self.bytes.retained_range(0, HEADER_LEN) {
            None => Ok(Front::Wait),
            Some(start) => {
                assert(start@ =~= s.subrange(0, HEADER_LEN as int));
                proof {
                    lemma_head_of_prefix(s);
                }
                match FrameHeader::parse(start.as_slice()) {
                    Err(ParseError::NeedMore) => Ok(Front::Wait),
                    Err(ParseError::BadType(_)) => {
                        let length: u32 = bytes::read_u24(start.as_slice(), 0);
                        if length > max_frame_size {
                            return Err(ConnError::FrameSize);
                        }
                        let total: usize = HEADER_LEN + length as usize;
                        if self.bytes.len() < total {
                            return Ok(Front::Wait);
                        }
                        Ok(Front::Unknown(total))
                    },
                    Err(error) => Err(ConnError::ParseError(error)),
                    Ok(header) => {
                        if header.length.as_u32() > max_frame_size {
                            return Err(ConnError::FrameSize);
                        }
                        let total: usize = HEADER_LEN + header.length.as_usize();
                        if self.bytes.len() < total {
                            return Ok(Front::Wait);
                        }
                        Ok(Front::Frame(header))
                    },
                }
            },
        }
    }

    /// The number of bytes of the input.
    pub fn len(&self) -> (r: usize)
        ensures
            r == self@.input.bytes().len(),
    {
        self.bytes.len()
    }

    /// A copy of some of the input.
    pub fn range(&self, start: usize, len: usize) -> (r: Vec<u8>)
        requires
            self.wf(),
            start + len <= self@.input.bytes().len(),
        ensures
            r@ == self@.input.bytes().subrange(start as int, start + len),
    {
        match self.bytes.retained_range(start, len) {
            Some(bytes) => bytes,
            None => Vec::new(),
        }
    }

    /// Whether a part of the input lies in one chunk.
    pub fn is_contiguous(&self, start: usize, len: usize) -> (r: bool)
        requires
            self.wf(),
            start + len <= self@.input.bytes().len(),
        ensures
            r == one_chunk(self@.input, start as int, len as int),
    {
        self.bytes.is_contiguous(start, len)
    }

    pub fn consume(&mut self, n: usize)
        requires
            old(self).wf(),
            n <= old(self)@.input.bytes().len(),
        ensures
            final(self).wf(),
            final(self)@ == old(self)@.consumed(n as int),
            final(self).same_pools(old(self)),
    {
        let _ = self.bytes.try_consume(n);
    }

    pub fn poll_event(&mut self) -> (r: Option<Event>)
        requires
            old(self).wf(),
        ensures
            final(self).wf(),
            match r {
                None => old(self)@.events.len() == 0 && final(self)@ == old(self)@,
                Some(event) => old(self)@.events.len() > 0 && event@ == old(self)@.events[0]
                    && final(self)@ == (IngressView {
                    events: old(self)@.events.drop_first(),
                    ..old(self)@
                }) && event.placed(final(self).data_pool(), final(self).header_parts()),
            },
            final(self).same_pools(old(self)),
    {
        let ghost before = self@;
        let r = self.events.pop_front();
        assert(r is Some ==> self@.events =~= before.events.drop_first());
        r
    }

    pub fn push_event(&mut self, event: Event) -> (r: Result<(), ConnError>)
        requires
            old(self).wf(),
            event.placed(old(self).data_pool(), old(self).header_parts()),
        ensures
            final(self).wf(),
            r == (if old(self)@.event_room() {
                Ok::<(), ConnError>(())
            } else {
                Err(ConnError::Overload)
            }),
            final(self)@ == (if r is Ok {
                old(self)@.with_event(event@)
            } else {
                old(self)@.event_back(event@)
            }),
    {
        let ghost before = self@;
        match self.events.push_back(event) {
            Ok(_) => {
                assert(self@.events =~= before.events.push(event@));
                Ok(())
            },
            Err(event) => {
                self.reclaim_event(event);
                Err(ConnError::Overload)
            },
        }
    }

    pub fn has_event_room(&self) -> (r: bool)
        requires
            self.wf(),
        ensures
            r == self@.event_room(),
    {
        !self.events.is_full()
    }

    /// The number of events that were not taken yet.
    pub fn event_count(&self) -> (r: usize)
        ensures
            r == self@.events.len(),
    {
        self.events.len()
    }

    /// Asks the pool for a place for data. Once it has given out as many as it has, whether
    /// there is one depends on what the owner of earlier events still holds.
    pub fn data_place(&mut self) -> (r: Option<Permit>)
        requires
            old(self).wf(),
        ensures
            final(self).wf(),
            old(self)@.data_places.gives(r is Some) == (r is Some),
            final(self)@ == old(self)@.asked_for_data(r is Some),
            final(self).same_pools(old(self)),
            r matches Some(permit) ==> permit.of() == final(self).data_pool(),
    {
        self.data_permits.try_acquire()
    }

    /// Asks the pool for a place for header fields. Once it has given out as many as it has,
    /// whether there is one depends on what the owner of earlier events still holds.
    pub fn header_place(&mut self) -> (r: Option<Spot>)
        requires
            old(self).wf(),
        ensures
            final(self).wf(),
            old(self)@.header_places.gives(r is Some) == (r is Some),
            final(self)@ == old(self)@.asked_for_headers(r is Some),
            r matches Some(spot) ==> spot.within(final(self).header_parts()),
    {
        let ghost parts = self.header_parts();
        let r = self.header_pool.try_acquire();
        proof {
            if let Some(active) = &self.active_headers {
                active.spot.lemma_within(parts, self.header_parts());
            }
            assert forall|i: int| 0 <= i < self.events.items().len() implies (
            #[trigger] self.events.items()[i]).placed(
                self.data_pool(),
                self.header_parts(),
            ) by {
                self.events.items()[i].lemma_placed(self.data_pool(), parts, self.header_parts());
            }
        }
        r
    }

    /// Reads a block that is complete, with the place that the pool gave.
    fn complete_headers_with(
        &mut self,
        fragment: &[u8],
        contiguous: bool,
        request: bool,
        trailing: bool,
        place: Option<Spot>,
    ) -> (r: Result<(HeaderBlock, bool), ConnError>)
        requires
            old(self).wf(),
            old(self)@.active is None,
            place matches Some(spot) ==> spot.within(old(self).header_parts()),
        ensures
            r matches Ok((block, _)) ==> block.within(final(self).header_parts()),
            final(self).wf(),
            block_is(
                completed_with(
                    old(self)@,
                    fragment@,
                    contiguous,
                    request,
                    trailing,
                    place is Some,
                ),
                final(self)@,
                r,
            ),
    {
        if fragment.len() > self.header_cap {
            return Err(ConnError::HeaderListTooLarge);
        }
        let spot = match place {
            None => return Err(ConnError::Overload),
            Some(spot) => spot,
        };
        let mut fields: Vec<OwnedHeader> = Vec::new();
        assert(hpack::fields(fields@) =~= Seq::<FieldView>::empty());
        assert(self.decoder.start(Seq::empty()) == self@.start());
        let exceeded: bool = if contiguous {
            match self.decoder.decode_bounded(fragment, &mut fields) {
                Err(error) => {
                    self.header_pool.give_back(spot);
                    return Err(ConnError::Hpack(error));
                },
                Ok(exceeded) => exceeded,
            }
        } else {
            let mut block = self.decoder.start_block();
            assert(block.machine(&self.decoder, Seq::empty()) == self.decoder.start(Seq::empty()));
            match self.decoder.decode_fragment(&mut block, fragment, &mut fields) {
                Err(error) => {
                    self.header_pool.give_back(spot);
                    return Err(ConnError::Hpack(error));
                },
                Ok(_) => {},
            }
            proof {
                block.lemma_machine(&self.decoder, hpack::fields(fields@));
            }
            match block.finish() {
                Err(error) => {
                    self.header_pool.give_back(spot);
                    return Err(ConnError::Hpack(error));
                },
                Ok(exceeded) => exceeded,
            }
        };
        let valid = valid_list(&fields, request, trailing);
        Ok((HeaderBlock::new(fields, spot), exceeded || !valid))
    }

    /// Reads the first part of a block, and notes what the block is for, with the place that
    /// the pool gave.
    fn begin_headers_with(
        &mut self,
        fragment: &[u8],
        request: bool,
        trailing: bool,
        place: Option<Spot>,
        pending: PendingHeaders,
    ) -> (r: Result<(), ConnError>)
        requires
            old(self).wf(),
            old(self)@.active is None,
            fragment@.len() <= old(self)@.header_cap,
            place matches Some(spot) ==> spot.within(old(self).header_parts()),
        ensures
            final(self).wf(),
            start_is(
                begun_with(old(self)@, fragment@, request, trailing, place is Some),
                pending@,
                final(self)@,
                r,
            ),
    {
        let spot = match place {
            None => return Err(ConnError::Overload),
            Some(spot) => spot,
        };
        let mut fields: Vec<OwnedHeader> = Vec::new();
        assert(hpack::fields(fields@) =~= Seq::<FieldView>::empty());
        let mut block = self.decoder.start_block();
        assert(block.machine(&self.decoder, Seq::empty()) == self.decoder.start(Seq::empty()));
        assert(self.decoder.start(Seq::empty()) == self@.start());
        match self.decoder.decode_fragment(&mut block, fragment, &mut fields) {
            Err(error) => {
                self.header_pool.give_back(spot);
                return Err(ConnError::Hpack(error));
            },
            Ok(_) => {},
        }
        proof {
            block.lemma_machine(&self.decoder, hpack::fields(fields@));
        }
        self.active_headers = Some(
            ActiveHeaders {
                block,
                fields,
                spot,
                wire_len: fragment.len(),
                request,
                trailing,
            },
        );
        self.pending_headers = Some(pending);
        Ok(())
    }

    /// Reads a block that is complete. Once the pool has given out as many places as it has,
    /// only the pool can say whether it gives one more.
    pub fn complete_headers(
        &mut self,
        fragment: &[u8],
        contiguous: bool,
        request: bool,
        trailing: bool,
    ) -> (r: Result<(HeaderBlock, bool), ConnError>)
        requires
            old(self).wf(),
            old(self)@.active is None,
        ensures
            final(self).wf(),
            r matches Ok((block, _)) ==> block.within(final(self).header_parts()),
            exists|place: bool|
                block_is(
                    #[trigger] completed(
                        old(self)@,
                        fragment@,
                        contiguous,
                        request,
                        trailing,
                        place,
                    ),
                    final(self)@,
                    r,
                ),
    {
        let ghost before = self@;
        if fragment.len() > self.header_cap {
            assert(block_is(
                completed(before, fragment@, contiguous, request, trailing, false),
                self@,
                Err::<(HeaderBlock, bool), ConnError>(ConnError::HeaderListTooLarge),
            ));
            return Err(ConnError::HeaderListTooLarge);
        }
        let place = self.header_place();
        let ghost free = place is Some;
        let r = self.complete_headers_with(fragment, contiguous, request, trailing, place);
        assert(block_is(
            completed(before, fragment@, contiguous, request, trailing, free),
            self@,
            r,
        ));
        r
    }

    /// Reads the first part of a block, and notes what the block is for. Once the pool has
    /// given out as many places as it has, only the pool can say whether it gives one more.
    pub fn begin_headers(
        &mut self,
        fragment: &[u8],
        request: bool,
        trailing: bool,
        pending: PendingHeaders,
    ) -> (r: Result<(), ConnError>)
        requires
            old(self).wf(),
        ensures
            final(self).wf(),
            exists|place: bool|
                start_is(
                    #[trigger] begun(old(self)@, fragment@, request, trailing, place),
                    pending@,
                    final(self)@,
                    r,
                ),
    {
        let ghost before = self@;
        let mut free: Ghost<bool> = Ghost(false);
        let r = if self.active_headers.is_some() {
            Err(ConnError::Continuation)
        } else if fragment.len() > self.header_cap {
            Err(ConnError::HeaderListTooLarge)
        } else {
            let place = self.header_place();
            proof {
                free@ = place is Some;
            }
            self.begin_headers_with(fragment, request, trailing, place, pending)
        };
        assert(start_is(
            begun(before, fragment@, request, trailing, free@),
            pending@,
            self@,
            r,
        ));
        r
    }

    /// Reads a further part of a block.
    pub fn continue_headers(&mut self, fragment: &[u8]) -> (r: Result<(), ConnError>)
        requires
            old(self).wf(),
        ensures
            final(self).wf(),
            (final(self)@, r) == continued(old(self)@, fragment@),
    {
        match self.active_headers.take() {
            None => Err(ConnError::Continuation),
            Some(active) => {
                let mut active: ActiveHeaders = active;
                if fragment.len() > self.header_cap - active.wire_len {
                    self.active_headers = Some(active);
                    return Err(ConnError::HeaderListTooLarge);
                }
                active.wire_len = active.wire_len + fragment.len();
                let done = self.decoder.decode_fragment(
                    &mut active.block,
                    fragment,
                    &mut active.fields,
                );
                proof {
                    active.block.lemma_machine(&self.decoder, hpack::fields(active.fields@));
                }
                self.active_headers = Some(active);
                match done {
                    Err(error) => Err(ConnError::Hpack(error)),
                    Ok(_) => Ok(()),
                }
            },
        }
    }

    /// Comes to the end of a block that was read in parts.
    pub fn finish_headers(&mut self) -> (r: Result<(HeaderBlock, bool), ConnError>)
        requires
            old(self).wf(),
        ensures
            final(self).wf(),
            r matches Ok((block, _)) ==> block.within(final(self).header_parts()),
            ({
                let (next, result) = finished(old(self)@);
                &&& final(self)@ == next
                &&& match r {
                    Ok((block, invalid)) => result == Ok::<BlockView, ConnError>(
                        BlockView { fields: block@, invalid },
                    ),
                    Err(error) => result == Err::<BlockView, ConnError>(error),
                }
            }),
    {
        match self.active_headers.take() {
            None => Err(ConnError::Continuation),
            Some(active) => {
                proof {
                    active.block.lemma_machine(&self.decoder, hpack::fields(active.fields@));
                }
                match active.block.finish() {
                    Err(error) => {
                        self.header_pool.give_back(active.spot);
                        Err(ConnError::Hpack(error))
                    },
                    Ok(exceeded) => {
                        let valid = valid_list(&active.fields, active.request, active.trailing);
                        Ok((HeaderBlock::new(active.fields, active.spot), exceeded || !valid))
                    },
                }
            },
        }
    }

    pub fn pending(&self) -> (r: Option<PendingHeaders>)
        ensures
            pending_view(r) == self@.pending,
    {
        self.pending_headers
    }

    /// Counts a frame that continues the block.
    pub fn count_continuation(&mut self, pending: PendingHeaders)
        requires
            old(self).wf(),
            old(self)@.pending is Some,
        ensures
            final(self).wf(),
            final(self)@ == (IngressView { pending: Some(pending@), ..old(self)@ }),
    {
        self.pending_headers = Some(pending);
    }

    /// Forgets the block that is not complete.
    pub fn clear_pending(&mut self)
        requires
            old(self).wf(),
            old(self)@.active is None,
        ensures
            final(self).wf(),
            final(self)@ == (IngressView { pending: None, ..old(self)@ }),
            final(self).same_pools(old(self)),
    {
        self.pending_headers = None;
    }
}

/// Whether reading a block has come out as `o` says.
pub open spec fn block_is(
    o: (IngressView, Result<BlockView, ConnError>),
    next: IngressView,
    r: Result<(HeaderBlock, bool), ConnError>,
) -> bool {
    &&& next == o.0
    &&& match r {
        Ok((block, invalid)) => o.1 == Ok::<BlockView, ConnError>(
            BlockView { fields: block@, invalid },
        ),
        Err(error) => o.1 == Err::<BlockView, ConnError>(error),
    }
}

/// Whether reading the first part of a block has come out as `o` says; `pending` is what is
/// noted of the block.
pub open spec fn start_is(
    o: (IngressView, Result<(), ConnError>),
    pending: PendingView,
    next: IngressView,
    r: Result<(), ConnError>,
) -> bool {
    &&& r == o.1
    &&& next == (if r is Ok {
        IngressView { pending: Some(pending), ..o.0 }
    } else {
        o.0
    })
}

/// The number of chunks that the input may hold: one for each place in the pools, and one
/// more.
pub open spec fn chunk_limit(data: int, headers: int) -> nat {
    if data + headers + 1 > usize::MAX {
        usize::MAX as nat
    } else {
        (data + headers + 1) as nat
    }
}

/// Whether a part of the input lies in one chunk.
pub open spec fn one_chunk(input: InputView, start: int, len: int) -> bool {
    len == 0 || collections::in_one_chunk(input.chunks, start, len)
}

proof fn lemma_head_of_prefix(s: Seq<u8>)
    requires
        s.len() >= HEADER_LEN,
    ensures
        frame::head_at(s.subrange(0, HEADER_LEN as int)) == frame::head_at(s),
        bytes::be24(s.subrange(0, HEADER_LEN as int), 0) == bytes::be24(s, 0),
        frame::head_at(s) != Err::<HeadView, ParseError>(ParseError::NeedMore),
{
}

} // verus!
