//! What a connection sends, and what it tells of itself.

use crate::h2::conn::model;
use crate::h2::conn::model::ConnView;
use crate::h2::conn::{Conn, DataPlan, OutboundWrite};
use crate::h2::egress;
use crate::h2::egress::Write;
use crate::h2::error::ConnError;
use crate::h2::event::{DataPayload, Event, HeaderBlock};
use crate::h2::flow::{Pair, Window};
use crate::h2::frame;
use crate::h2::frame::{ErrorCode, FrameLength, GoAway, Ping, HEADER_LEN};
use crate::h2::hpack;
use crate::h2::hpack::encoder;
use crate::h2::hpack::{Header, OwnedHeader};
use crate::h2::ingress::IngressView;
use crate::h2::role;
use crate::h2::role::{ClientRole, Role, ServerRole};
use crate::h2::settings::Settings;
use crate::h2::stream;
use crate::h2::stream::{Side, State, Stream, StreamId};
use crate::h2::stream_registry::StreamRecord;
use vstd::prelude::*;

verus! {

impl<R: Role> Conn<R> {
    pub fn local_settings(&self) -> (r: &Settings)
        ensures
            *r == self@.local,
    {
        &self.local_settings
    }

    pub fn peer_settings(&self) -> (r: &Settings)
        ensures
            *r == self@.peer,
    {
        &self.peer_settings
    }

    pub fn send_window(&self) -> (r: Window)
        ensures
            r == self@.send_window,
    {
        self.send_window
    }

    pub fn recv_window(&self) -> (r: Window)
        ensures
            r == self@.recv_window,
    {
        self.recv_window
    }

    pub fn goaway_received(&self) -> (r: Option<ErrorCode>)
        ensures
            r == self@.goaway_received,
    {
        self.goaway_received
    }

    pub fn goaway_sent(&self) -> (r: bool)
        ensures
            r == self@.goaway_sent,
    {
        self.goaway_sent
    }

    /// The first bytes that can be written, which lie in one piece.
    pub fn outbound(&self) -> (r: &[u8])
        requires
            self.wf(),
        ensures
            r@ == self@.egress.bytes.subrange(0, self@.egress.first_len() as int),
            r@.len() == self@.egress.first_len(),
    {
        proof {
            self.egress.lemma_wf();
        }
        let (first, second): (&[u8], &[u8]) = self.egress.slices();
        let ghost all = self@.egress.bytes.subrange(0, self@.egress.ready() as int);
        assert(all == first@ + second@);
        assert(all.len() == first@.len() + second@.len());
        assert(first@ =~= all.subrange(0, first@.len() as int));
        assert(first@ =~= self@.egress.bytes.subrange(0, first@.len() as int));
        first
    }

    /// The bytes that can be written before the next body, in two pieces.
    pub fn outbound_slices(&self) -> (r: (&[u8], &[u8]))
        requires
            self.wf(),
        ensures
            r.0@ + r.1@ == self@.egress.bytes.subrange(0, self@.egress.ready() as int),
            r.0@.len() == self@.egress.first_len(),
    {
        self.egress.slices()
    }

    pub fn outbound_len(&self) -> (r: usize)
        requires
            self.wf(),
        ensures
            r == self@.egress.len(),
    {
        self.egress.len()
    }

    /// Bytes were written.
    pub fn drain_outbound(&mut self, n: usize)
        requires
            old(self).wf(),
        ensures
            final(self).wf(),
            final(self)@ == (ConnView {
                egress: old(self)@.egress.drained(n as int),
                ..old(self)@
            }),
    {
        self.egress.drain(n);
    }

    /// Takes up to `limit` bytes to be written.
    pub fn drain_into(&mut self, limit: usize, out: &mut Vec<u8>) -> (r: usize)
        requires
            old(self).wf(),
        ensures
            final(self).wf(),
            r == (if limit < old(self)@.egress.ready() {
                limit as nat
            } else {
                old(self)@.egress.ready()
            }),
            final(out)@ == old(out)@ + old(self)@.egress.bytes.subrange(0, r as int),
            final(self)@ == (ConnView {
                egress: old(self)@.egress.drained(r as int),
                ..old(self)@
            }),
    {
        self.egress.drain_into(limit, out)
    }

    /// Takes up to `limit` bytes to be written, and the next body when they reach it.
    pub fn take_write(&mut self, limit: usize, out: &mut Vec<u8>) -> (r: OutboundWrite)
        requires
            old(self).wf(),
        ensures
            final(self).wf(),
            ({
                let v = old(self)@.egress;
                let n: nat = if limit < v.ready() {
                    limit as nat
                } else {
                    v.ready()
                };
                &&& final(out)@ == old(out)@ + v.bytes.subrange(0, n as int)
                &&& if v.payloads.len() > 0 && n == v.ready() {
                    final(self)@ == (ConnView {
                        egress: v.drained(n as int).body_taken(),
                        ..old(self)@
                    }) && (r matches OutboundWrite::Split { prefix_len, body } && prefix_len == n
                        && body@ == v.payloads[0].body)
                } else {
                    final(self)@ == (ConnView { egress: v.drained(n as int), ..old(self)@ }) && r
                        == OutboundWrite::Buffered(n as usize)
                }
            }),
    {
        match self.egress.take_write(limit, out) {
            Write::Buffered(written) => OutboundWrite::Buffered(written),
            Write::Split { prefix_len, body } => OutboundWrite::Split { prefix_len, body },
        }
    }

    /// The next event, if there is one.
    pub fn poll_event(&mut self) -> (r: Option<Event>)
        requires
            old(self).wf(),
        ensures
            final(self).wf(),
            match r {
                None => old(self)@.ingress.events.len() == 0 && final(self)@ == old(self)@,
                Some(event) => old(self)@.ingress.events.len() > 0 && event@
                    == old(self)@.ingress.events[0] && final(self)@ == old(self)@.with_ingress(
                    IngressView {
                        events: old(self)@.ingress.events.drop_first(),
                        ..old(self)@.ingress
                    },
                ) && final(self).lends(event),
            },
    {
        self.ingress.poll_event()
    }

    /// Takes back the place that an event holds, if it holds one.
    pub fn reclaim(&mut self, event: Event)
        requires
            old(self).wf(),
            old(self).lends(event),
        ensures
            final(self).wf(),
            final(self)@ == old(self)@.with_ingress(old(self)@.ingress.event_back(event@)),
    {
        self.ingress.reclaim_event(event);
    }

    /// Takes back the place that a block of header fields holds, and leaves the fields.
    pub fn reclaim_headers(&mut self, headers: HeaderBlock) -> (r: Vec<OwnedHeader>)
        requires
            old(self).wf(),
            old(self).lends_headers(headers),
        ensures
            final(self).wf(),
            hpack::fields(r@) == headers@,
            final(self)@ == model::block_dropped(old(self)@),
    {
        self.ingress.reclaim_headers(headers)
    }

    /// Takes back the place that data holds, and leaves the bytes.
    pub fn reclaim_data(&mut self, data: DataPayload) -> (r: Vec<u8>)
        requires
            old(self).wf(),
            old(self).lends_data(data),
        ensures
            final(self).wf(),
            r@ == data@,
            final(self)@ == model::data_dropped(old(self)@),
    {
        self.ingress.reclaim_data(data)
    }

    /// The number of events that were not taken yet.
    pub fn event_count(&self) -> (r: usize)
        ensures
            r == self@.ingress.events.len(),
    {
        self.ingress.event_count()
    }

    /// The number of bytes that came in and were not used yet.
    pub fn inbound_len(&self) -> (r: usize)
        requires
            self.wf(),
        ensures
            r == self@.ingress.input.bytes().len(),
    {
        self.ingress.len()
    }

    /// Whether a window has opened since this was last asked.
    pub fn take_window_opened(&mut self) -> (r: bool)
        requires
            old(self).wf(),
        ensures
            final(self).wf(),
            r == old(self)@.opened,
            final(self)@ == (ConnView { opened: false, ..old(self)@ }),
    {
        let opened = self.send_window_opened;
        self.send_window_opened = false;
        opened
    }

    pub fn has_stream(&self, id: StreamId) -> (r: bool)
        ensures
            r == self@.has_stream(id.value()),
    {
        self.streams.get(id).is_some()
    }

    pub fn stream_state(&self, id: StreamId) -> (r: Option<State>)
        ensures
            r == (if self@.has_stream(id.value()) {
                Some(self@.streams.records[id.value()].stream.state)
            } else {
                None
            }),
    {
        match self.streams.get(id) {
            Some(record) => Some(record.stream.state),
            None => None,
        }
    }

    pub fn active_count(&self) -> (r: usize)
        ensures
            r == self@.streams.records.len(),
    {
        self.streams.active_count()
    }

    pub fn tracked_closed_count(&self) -> (r: usize)
        ensures
            r == self@.streams.reset.len(),
    {
        self.streams.reset_count()
    }

    pub fn stream_send_window(&self, id: StreamId) -> (r: Option<Window>)
        ensures
            r == (if self@.has_stream(id.value()) {
                Some(self@.streams.records[id.value()].send_window)
            } else {
                None
            }),
    {
        match self.streams.get(id) {
            Some(record) => Some(record.send_window),
            None => None,
        }
    }

    pub fn stream_recv_window(&self, id: StreamId) -> (r: Option<Window>)
        ensures
            r == (if self@.has_stream(id.value()) {
                Some(self@.streams.records[id.value()].recv_window)
            } else {
                None
            }),
    {
        match self.streams.get(id) {
            Some(record) => Some(record.recv_window),
            None => None,
        }
    }

    pub fn ping(&mut self, opaque: [u8; 8]) -> (r: Result<(), ConnError>)
        requires
            old(self).wf(),
        ensures
            final(self).wf(),
            (final(self)@, r) == model::pinged(old(self)@, opaque@),
    {
        match self.egress.reserve(HEADER_LEN + 8) {
            Ok(_) => {},
            Err(failure) => return Err(failure),
        }
        let frame = Ping { ack: false, opaque };
        let mut wire: Vec<u8> = Vec::new();
        frame.encode(&mut wire);
        assert(wire@ =~= frame::frame_wire(frame@));
        self.egress.write(wire.as_slice());
        Ok(())
    }

    pub fn goaway(&mut self, error: ErrorCode, debug: &[u8]) -> (r: Result<(), ConnError>)
        requires
            old(self).wf(),
        ensures
            final(self).wf(),
            (final(self)@, r) == model::went_away(old(self)@, error, debug@),
    {
        proof {
            self.egress.lemma_wf();
        }
        if debug.len() > usize::MAX - HEADER_LEN - 8 {
            return Err(ConnError::Overload);
        }
        match self.egress.reserve(HEADER_LEN + 8 + debug.len()) {
            Ok(_) => {},
            Err(failure) => return Err(failure),
        }
        let frame: GoAway<'_> = match GoAway::new(self.streams.last_peer_id(), error, debug) {
            Some(frame) => frame,
            None => return Err(ConnError::FrameSize),
        };
        let mut wire: Vec<u8> = Vec::new();
        frame.encode(&mut wire);
        assert(wire@ =~= frame::frame_wire(frame@));
        self.egress.write(wire.as_slice());
        self.goaway_sent = true;
        Ok(())
    }

    pub fn reset_stream(&mut self, stream_id: StreamId, error: ErrorCode) -> (r: Result<
        (),
        ConnError,
    >)
        requires
            old(self).wf(),
        ensures
            final(self).wf(),
            (final(self)@, r) == model::stream_reset(old(self)@, stream_id.value(), error),
    {
        reveal(model::stream_reset);
        if !self.has_stream(stream_id) {
            return Err(ConnError::BadStream);
        }
        match self.emit_rst(stream_id, error) {
            Ok(_) => {},
            Err(failure) => return Err(failure),
        }
        let _ = self.advance_stream(stream_id, stream::Event::RstStream, Side::Local);
        Ok(())
    }

    /// Sends as much of a body as the windows let through.
    pub fn send_data(&mut self, stream_id: StreamId, data: &[u8], end_stream: bool) -> (r: Result<
        usize,
        ConnError,
    >)
        requires
            old(self).wf(),
        ensures
            final(self).wf(),
            (final(self)@, r) == model::data_sent(
                old(self)@,
                stream_id.value(),
                data@,
                end_stream,
            ),
    {
        reveal(model::data_sent);
        let empty: Vec<u8> = Vec::new();
        assert(data@ + empty@ =~= data@);
        assert(data@.len() == data.len());
        self.send_data_parts(stream_id, data, empty.as_slice(), end_stream)
    }

    /// Sends as much of a body in two pieces as the windows let through.
    pub fn send_data_parts(
        &mut self,
        stream_id: StreamId,
        first: &[u8],
        second: &[u8],
        end_stream: bool,
    ) -> (r: Result<usize, ConnError>)
        requires
            old(self).wf(),
        ensures
            final(self).wf(),
            (final(self)@, r) == (if first@.len() + second@.len() > usize::MAX {
                (old(self)@, Err::<usize, ConnError>(ConnError::FrameSize))
            } else {
                model::data_sent(old(self)@, stream_id.value(), first@ + second@, end_stream)
            }),
    {
        reveal(model::data_sent);
        let len: usize = match first.len().checked_add(second.len()) {
            Some(len) => len,
            None => return Err(ConnError::FrameSize),
        };
        let plan: DataPlan = match self.plan_data(stream_id, len, end_stream) {
            Err(failure) => return Err(failure),
            Ok(None) => return Ok(0),
            Ok(Some(plan)) => plan,
        };
        self.egress.data(stream_id, plan.end_stream, first, second, plan.length);
        Ok(plan.length.as_usize())
    }

    /// Sends as much of a body as the windows let through, without a copy into the ring.
    pub fn send_data_shared(
        &mut self,
        stream_id: StreamId,
        data: &[u8],
        end_stream: bool,
    ) -> (r: Result<usize, ConnError>)
        requires
            old(self).wf(),
        ensures
            final(self).wf(),
            (final(self)@, r) == model::shared_sent(
                old(self)@,
                stream_id.value(),
                data@,
                end_stream,
            ),
    {
        reveal(model::shared_sent);
        let plan: DataPlan = match self.plan_data(stream_id, data.len(), end_stream) {
            Err(failure) => return Err(failure),
            Ok(None) => return Ok(0),
            Ok(Some(plan)) => plan,
        };
        let len: usize = plan.length.as_usize();
        let body = crate::bytes::to_vec(&data[0..len]);
        self.egress.data_shared(stream_id, plan.end_stream, body, plan.length);
        Ok(len)
    }

    fn plan_data(&mut self, stream_id: StreamId, len: usize, end_stream: bool) -> (r: Result<
        Option<DataPlan>,
        ConnError,
    >)
        requires
            old(self).wf(),
        ensures
            final(self).wf(),
            ({
                let (next, result) = model::data_planned(
                    old(self)@,
                    stream_id.value(),
                    len as int,
                    end_stream,
                );
                &&& final(self)@ == next
                &&& match r {
                    Err(failure) => result == Err::<Option<(int, bool)>, ConnError>(failure),
                    Ok(None) => result == Ok::<Option<(int, bool)>, ConnError>(None),
                    Ok(Some(plan)) => result == Ok::<Option<(int, bool)>, ConnError>(
                        Some((plan.length.value() as int, plan.end_stream)),
                    ) && plan.length.value() <= len && final(self)@.egress.has_room(
                        HEADER_LEN + plan.length.value(),
                    ),
                }
            }),
    {
        let ghost before = self@;
        proof {
            self.streams.lemma_wf();
        }
        let mut record: StreamRecord = match self.streams.get(stream_id) {
            None => return Err(ConnError::BadStream),
            Some(record) => *record,
        };
        let conn_room: usize = self.send_window.available();
        let stream_room: usize = record.send_window.available();
        let room: usize = if conn_room < stream_room {
            conn_room
        } else {
            stream_room
        };
        if room == 0 && len != 0 {
            return Ok(None);
        }
        let most: usize = if len < room {
            len
        } else {
            room
        };
        let max_frame: usize = self.peer_settings.max_frame_size as usize;
        let n: usize = if most < max_frame {
            most
        } else {
            max_frame
        };
        assert(n == model::data_share(before, stream_id.value(), len as int));
        let length: FrameLength = match FrameLength::from_usize(n) {
            Some(length) => length,
            None => return Err(ConnError::FrameSize),
        };
        match self.egress.reserve(HEADER_LEN + n) {
            Ok(_) => {},
            Err(failure) => return Err(failure),
        }
        if n > 0 {
            let _ = Pair { conn: &mut self.send_window, stream: &mut record.send_window }.consume(n);
            self.streams.put(stream_id, record);
        }
        assert(self@ =~= model::debited(before, stream_id.value(), n as int)) by {
            if n == 0 {
                assert(before.streams.records.insert(stream_id.value(), record)
                    =~= before.streams.records);
            }
        }
        let ends = end_stream && n == len;
        match self.advance_stream(stream_id, stream::Event::Data { end_stream: ends }, Side::Local) {
            Ok(_) => {},
            Err(_) => return Err(ConnError::Protocol),
        }
        Ok(Some(DataPlan { length, end_stream: ends }))
    }

    /// Sends header fields on a stream.
    fn send_fields(
        &mut self,
        stream_id: StreamId,
        headers: &[Header<'_>],
        end_stream: bool,
    ) -> (r: Result<(), ConnError>)
        requires
            old(self).wf(),
        ensures
            final(self).wf(),
            (final(self)@, r) == model::fields_sent(
                old(self)@,
                stream_id.value(),
                encoder::header_views(headers@),
                end_stream,
            ),
    {
        let max_frame: usize = self.peer_settings.max_frame_size as usize;
        match self.egress.headers(stream_id, headers, end_stream, max_frame) {
            Ok(_) => {},
            Err(failure) => return Err(failure),
        }
        match self.advance_stream(stream_id, stream::Event::Headers { end_stream }, Side::Local) {
            Ok(_) => Ok(()),
            Err(_) => Err(ConnError::Protocol),
        }
    }

    pub fn send_trailers(&mut self, stream_id: StreamId, headers: &[Header<'_>]) -> (r: Result<
        (),
        ConnError,
    >)
        requires
            old(self).wf(),
        ensures
            final(self).wf(),
            (final(self)@, r) == model::response_sent(
                old(self)@,
                stream_id.value(),
                encoder::header_views(headers@),
                true,
            ),
    {
        self.send_trailers_fields(stream_id, headers)
    }

    pub fn send_trailers_fields(&mut self, stream_id: StreamId, headers: &[Header<'_>]) -> (r:
        Result<(), ConnError>)
        requires
            old(self).wf(),
        ensures
            final(self).wf(),
            (final(self)@, r) == model::response_sent(
                old(self)@,
                stream_id.value(),
                encoder::header_views(headers@),
                true,
            ),
    {
        reveal(model::response_sent);
        if !self.has_stream(stream_id) {
            return Err(ConnError::BadStream);
        }
        self.send_fields(stream_id, headers, true)
    }

    fn can_track_local_stream(&self) -> (r: bool)
        requires
            self.wf(),
        ensures
            r == crate::h2::stream_registry::opens_local(
                self@.streams,
                R::IS_SERVER,
                model::local_stream_limit(self@),
            ),
    {
        let limit: usize = match self.peer_settings.max_concurrent_streams {
            Some(limit) => limit as usize,
            None => usize::MAX,
        };
        self.streams.can_open_local(limit)
    }
}

impl Conn<ClientRole> {
    /// Starts a request on a new stream.
    pub fn start_request(&mut self, headers: &[Header<'_>], end_stream: bool) -> (r: Result<
        StreamId,
        ConnError,
    >)
        requires
            old(self).wf(),
        ensures
            final(self).wf(),
            ({
                let (next, result) = model::request_started(
                    old(self)@,
                    encoder::header_views(headers@),
                    end_stream,
                );
                &&& final(self)@ == next
                &&& match r {
                    Ok(id) => result == Ok::<u32, ConnError>(id.value()),
                    Err(failure) => result == Err::<u32, ConnError>(failure),
                }
            }),
    {
        self.start_request_fields(headers, end_stream)
    }

    /// Starts a request on a new stream.
    pub fn start_request_fields(&mut self, headers: &[Header<'_>], end_stream: bool) -> (r: Result<
        StreamId,
        ConnError,
    >)
        requires
            old(self).wf(),
        ensures
            final(self).wf(),
            ({
                let (next, result) = model::request_started(
                    old(self)@,
                    encoder::header_views(headers@),
                    end_stream,
                );
                &&& final(self)@ == next
                &&& match r {
                    Ok(id) => result == Ok::<u32, ConnError>(id.value()),
                    Err(failure) => result == Err::<u32, ConnError>(failure),
                }
            }),
    {
        reveal(model::request_started);
        let ghost before = self@;
        proof {
            role::lemma_client();
        }
        if self.goaway_received.is_some() || self.goaway_sent {
            return Err(ConnError::StreamGoneAway);
        }
        if !self.can_track_local_stream() {
            return Err(ConnError::StreamLimit);
        }
        let id: StreamId = match self.streams.next_local_id() {
            Some(id) => id,
            None => return Err(ConnError::StreamLimit),
        };
        if id.is_zero() {
            return Err(ConnError::StreamLimit);
        }
        proof {
            StreamId::lemma_id_of(id, id.value());
        }
        match self.track_stream(Stream::new(id)) {
            Ok(_) => {},
            Err(_) => return Err(ConnError::StreamLimit),
        }
        match self.send_fields(id, headers, end_stream) {
            Ok(_) => Ok(id),
            Err(failure) => Err(failure),
        }
    }
}

impl Conn<ServerRole> {
    /// Sends the header fields of a response.
    pub fn send_response(
        &mut self,
        stream_id: StreamId,
        headers: &[Header<'_>],
        end_stream: bool,
    ) -> (r: Result<(), ConnError>)
        requires
            old(self).wf(),
        ensures
            final(self).wf(),
            (final(self)@, r) == model::response_sent(
                old(self)@,
                stream_id.value(),
                encoder::header_views(headers@),
                end_stream,
            ),
    {
        reveal(model::response_sent);
        if !self.has_stream(stream_id) {
            return Err(ConnError::BadStream);
        }
        self.send_fields(stream_id, headers, end_stream)
    }
}

} // verus!
