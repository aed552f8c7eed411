//! What a connection tells its owner.

use crate::collections;
use crate::collections::{Permit, Spot};
use crate::h2::frame::ErrorCode;
use crate::h2::hpack;
use crate::h2::hpack::dynamic_table;
use crate::h2::hpack::dynamic_table::OVERHEAD;
use crate::h2::hpack::{FieldView, OwnedHeader};
use crate::h2::stream::StreamId;
use vstd::prelude::*;

verus! {

/// Bytes from the peer, which hold a place in the pool for as long as they are kept.
pub struct DataPayload {
    bytes: Vec<u8>,
    permit: Permit,
}

impl DataPayload {
    pub closed spec fn view(&self) -> Seq<u8> {
        self.bytes@
    }

    pub(crate) fn from_retained(bytes: Vec<u8>, permit: Permit) -> (r: Self)
        ensures
            r@ == bytes@,
            r.place_of() == permit.of(),
    {
        DataPayload { bytes, permit }
    }

    pub fn as_slice(&self) -> (r: &[u8])
        ensures
            r@ == self@,
    {
        self.bytes.as_slice()
    }

    pub fn len(&self) -> (r: usize)
        ensures
            r == self@.len(),
    {
        self.bytes.len()
    }

    pub fn is_empty(&self) -> (r: bool)
        ensures
            r == (self@.len() == 0),
    {
        self.bytes.len() == 0
    }

    /// The pool whose place is held.
    pub closed spec fn place_of(&self) -> int {
        self.permit.of()
    }

    /// Gives up the place in the pool.
    pub fn into_retained(self) -> (r: Vec<u8>)
        ensures
            r@ == self@,
    {
        self.bytes
    }

    /// The bytes and the place in the pool.
    pub(crate) fn into_parts(self) -> (r: (Vec<u8>, Permit))
        ensures
            r.0@ == self@,
            r.1.of() == self.place_of(),
    {
        (self.bytes, self.permit)
    }
}

/// A list of header fields, which holds a place in the pool for as long as it is kept.
pub struct HeaderBlock {
    fields: Vec<OwnedHeader>,
    spot: Spot,
}

impl HeaderBlock {
    pub closed spec fn view(&self) -> Seq<FieldView> {
        hpack::fields(self.fields@)
    }

    /// Whether the place stands in a pool of such parts.
    pub closed spec fn within(&self, parts: Seq<int>) -> bool {
        self.spot.within(parts)
    }

    pub(crate) fn new(fields: Vec<OwnedHeader>, spot: Spot) -> (r: Self)
        ensures
            r@ == hpack::fields(fields@),
            forall|parts: Seq<int>| #[trigger] spot.within(parts) ==> r.within(parts),
    {
        HeaderBlock { fields, spot }
    }

    pub proof fn lemma_within(&self, parts: Seq<int>, more: Seq<int>)
        requires
            self.within(parts),
            collections::grows(parts, more),
        ensures
            self.within(more),
    {
        self.spot.lemma_within(parts, more);
    }

    /// The fields and the place in the pool.
    pub(crate) fn into_parts(self) -> (r: (Vec<OwnedHeader>, Spot))
        ensures
            hpack::fields(r.0@) == self@,
            forall|parts: Seq<int>| #[trigger] self.within(parts) ==> r.1.within(parts),
    {
        (self.fields, self.spot)
    }

    pub fn len(&self) -> (r: usize)
        ensures
            r == self@.len(),
    {
        self.fields.len()
    }

    pub fn as_slice(&self) -> (r: &[OwnedHeader])
        ensures
            hpack::fields(r@) == self@,
    {
        self.fields.as_slice()
    }

    /// Appends the fields of another block, or hands it back where all of them together count
    /// for more than `limit`.
    pub fn append(&mut self, more: HeaderBlock, limit: Option<u32>) -> (r: Result<(), HeaderBlock>)
        ensures
            match r {
                Ok(_) => block_fits(old(self)@ + more@, limit) && final(self)@ == old(self)@ + more@,
                Err(back) => !block_fits(old(self)@ + more@, limit) && final(self)@ == old(self)@
                    && back@ == more@,
            },
    {
        let ghost before = self.fields@;
        let ghost added = more.fields@;
        let ghost all = hpack::fields(before) + hpack::fields(added);
        if let Some(limit) = limit {
            let ghost cap = limit as nat;
            proof {
                assert(all.take(0) =~= Seq::<FieldView>::empty());
                assert(hpack::fields(before) =~= all.subrange(0, before.len() as int));
                assert(hpack::fields(added) =~= all.subrange(
                    before.len() as int,
                    all.len() as int,
                ));
            }
            let half = within(
                self.fields.as_slice(),
                limit as usize,
                Ghost(all),
                Ghost(0),
                Ghost(cap),
            );
            let whole: Option<usize> = match half {
                None => None,
                Some(left) => within(
                    more.fields.as_slice(),
                    left,
                    Ghost(all),
                    Ghost(before.len() as int),
                    Ghost(cap),
                ),
            };
            assert(all.take(all.len() as int) =~= all);
            if whole.is_none() {
                return Err(more);
            }
        }
        let mut rest: Vec<OwnedHeader> = more.fields;
        self.fields.append(&mut rest);
        assert(self.fields@ =~= before + added);
        assert(hpack::fields(before + added) =~= hpack::fields(before) + hpack::fields(added));
        Ok(())
    }
}

/// Whether fields count for no more than a limit, if there is one.
pub open spec fn block_fits(fields: Seq<FieldView>, limit: Option<u32>) -> bool {
    limit matches Some(limit) ==> dynamic_table::list_size(fields) <= limit
}

/// What is left of `left` after a part of a list, if it is enough.
fn within(
    part: &[OwnedHeader],
    left: usize,
    Ghost(all): Ghost<Seq<FieldView>>,
    Ghost(from): Ghost<int>,
    Ghost(cap): Ghost<nat>,
) -> (r: Option<usize>)
    requires
        0 <= from,
        from + part@.len() <= all.len(),
        hpack::fields(part@) == all.subrange(from, from + part@.len()),
        dynamic_table::list_size(all.take(from)) + left == cap,
    ensures
        match r {
            Some(rest) => dynamic_table::list_size(all.take(from + part@.len())) + rest == cap,
            None => dynamic_table::list_size(all) > cap,
        },
{
    let mut left: usize = left;
    let mut i: usize = 0;
    while i < part.len()
        invariant
            i <= part@.len(),
            0 <= from,
            from + part@.len() <= all.len(),
            hpack::fields(part@) == all.subrange(from, from + part@.len()),
            dynamic_table::list_size(all.take(from + i)) + left == cap,
        decreases part@.len() - i,
    {
        let field: &OwnedHeader = &part[i];
        proof {
            let longer = all.take(from + i + 1);
            assert(longer.drop_last() =~= all.take(from + i));
            assert(longer.last() == hpack::fields(part@)[i as int]);
            assert(longer.last() == field@);
            dynamic_table::lemma_part_size(all, from + i + 1);
        }
        if field.name.len() > left || field.value.len() > left - field.name.len() {
            return None;
        }
        let rest: usize = left - field.name.len() - field.value.len();
        if rest < OVERHEAD {
            return None;
        }
        left = rest - OVERHEAD;
        i = i + 1;
    }
    Some(left)
}

/// What happened on a connection.
pub enum Event {
    PrefaceComplete,
    SettingsApplied,
    SettingsAck,
    Ping { ack: bool, opaque: [u8; 8] },
    GoAway { last_stream_id: StreamId, error: ErrorCode, debug: DataPayload },
    Headers { stream_id: StreamId, headers: HeaderBlock, end_stream: bool, trailing: bool },
    Data { stream_id: StreamId, data: DataPayload, end_stream: bool },
    StreamReset { stream_id: StreamId, error: ErrorCode },
    PushPromise { stream_id: StreamId, promised_stream_id: StreamId, headers: HeaderBlock },
}

/// An event as numbers, byte strings and fields.
#[verifier::ext_equal]
pub enum EventView {
    PrefaceComplete,
    SettingsApplied,
    SettingsAck,
    Ping { ack: bool, opaque: Seq<u8> },
    GoAway { last: u32, error: ErrorCode, debug: Seq<u8> },
    Headers { stream: u32, fields: Seq<FieldView>, end_stream: bool, trailing: bool },
    Data { stream: u32, data: Seq<u8>, end_stream: bool },
    StreamReset { stream: u32, error: ErrorCode },
    PushPromise { stream: u32, promised: u32, fields: Seq<FieldView> },
}

impl Event {
    /// Whether what the event holds are places of a pool for data and of one for header fields
    /// with such parts.
    pub open spec fn placed(&self, data_pool: int, parts: Seq<int>) -> bool {
        match self {
            Event::GoAway { debug, .. } => debug.place_of() == data_pool,
            Event::Data { data, .. } => data.place_of() == data_pool,
            Event::Headers { headers, .. } => headers.within(parts),
            Event::PushPromise { headers, .. } => headers.within(parts),
            _ => true,
        }
    }

    pub proof fn lemma_placed(&self, data_pool: int, parts: Seq<int>, more: Seq<int>)
        requires
            self.placed(data_pool, parts),
            collections::grows(parts, more),
        ensures
            self.placed(data_pool, more),
    {
        match self {
            Event::Headers { headers, .. } => headers.lemma_within(parts, more),
            Event::PushPromise { headers, .. } => headers.lemma_within(parts, more),
            _ => {},
        }
    }

    pub open spec fn view(&self) -> EventView {
        match self {
            Event::PrefaceComplete => EventView::PrefaceComplete,
            Event::SettingsApplied => EventView::SettingsApplied,
            Event::SettingsAck => EventView::SettingsAck,
            Event::Ping { ack, opaque } => EventView::Ping { ack: *ack, opaque: opaque@ },
            Event::GoAway { last_stream_id, error, debug } => EventView::GoAway {
                last: last_stream_id.value(),
                error: *error,
                debug: debug@,
            },
            Event::Headers { stream_id, headers, end_stream, trailing } => EventView::Headers {
                stream: stream_id.value(),
                fields: headers@,
                end_stream: *end_stream,
                trailing: *trailing,
            },
            Event::Data { stream_id, data, end_stream } => EventView::Data {
                stream: stream_id.value(),
                data: data@,
                end_stream: *end_stream,
            },
            Event::StreamReset { stream_id, error } => EventView::StreamReset {
                stream: stream_id.value(),
                error: *error,
            },
            Event::PushPromise { stream_id, promised_stream_id, headers } => EventView::PushPromise {
                stream: stream_id.value(),
                promised: promised_stream_id.value(),
                fields: headers@,
            },
        }
    }
}

/// Whether an event holds a place for data.
pub open spec fn holds_data(event: EventView) -> bool {
    event is Data || event is GoAway
}

/// Whether an event holds a place for header fields.
pub open spec fn holds_headers(event: EventView) -> bool {
    event is Headers || event is PushPromise
}

/// The stream that an event is about.
pub open spec fn stream_of(event: EventView) -> Option<u32> {
    match event {
        EventView::Headers { stream, .. } => Some(stream),
        EventView::Data { stream, .. } => Some(stream),
        EventView::StreamReset { stream, .. } => Some(stream),
        _ => None,
    }
}

/// Events as values.
pub open spec fn event_views(events: Seq<Event>) -> Seq<EventView> {
    events.map_values(|event: Event| event@)
}

} // verus!
