//! What a connection does with the frames that come in.

use crate::bytes::read_u32;
use crate::h2::conn::model;
use crate::h2::conn::model::{
    Chance, ConnView, PieceView, MAX_CONTINUATION_FRAMES, MAX_RESET_STREAMS, SHORT_FRAME_LEN,
};
use crate::h2::conn::{apply_params, progress, Conn};
use crate::h2::egress;
use crate::h2::error;
use crate::h2::error::ConnError;
use crate::h2::event::{DataPayload, Event, HeaderBlock};
use crate::h2::flow;
use crate::h2::flow::Window;
use crate::h2::hpack::dynamic_table;
use crate::h2::frame;
use crate::h2::frame::{
    ErrorCode, Flags, FrameHeader, GoAway, ParseError, Ping, Priority, RstStream, Type,
    WindowIncrement, WindowUpdate, HEADER_LEN,
};
use crate::h2::ingress;
use crate::h2::ingress::{BlockView, Front, FrontView, PendingHeaders, PendingKind};
use crate::h2::role::Role;
use crate::h2::settings::Settings;
use crate::h2::stream;
use crate::h2::stream::{Side, State, Stream, StreamId, TransitionError};
use crate::h2::stream_registry;
use crate::h2::stream_registry::{RegistryView, StreamClass, StreamRecord, StreamRegistry};
use vstd::prelude::*;

verus! {

impl<R: Role> Conn<R> {
    pub(super) fn emit_rst(&mut self, stream_id: StreamId, error: ErrorCode) -> (r: Result<
        (),
        ConnError,
    >)
        requires
            old(self).wf(),
        ensures
            final(self).wf(),
            (final(self)@, r) == model::rst_sent(old(self)@, stream_id.value(), error),
    {
        match self.egress.reset(stream_id, error) {
            Ok(_) => Ok(()),
            Err(failure) => Err(failure),
        }
    }

    fn rst_evict(&mut self, stream_id: StreamId, error: ErrorCode) -> (r: Result<(), ConnError>)
        requires
            old(self).wf(),
        ensures
            final(self).wf(),
            (final(self)@, r) == model::rst_evicted(old(self)@, stream_id.value(), error),
    {
        match self.emit_rst(stream_id, error) {
            Ok(_) => {},
            Err(failure) => return Err(failure),
        }
        self.streams.mark_reset(stream_id);
        self.streams.remove(stream_id);
        Ok(())
    }

    fn refuse(&mut self, stream_id: StreamId) -> (r: Result<(), ConnError>)
        requires
            old(self).wf(),
        ensures
            final(self).wf(),
            (final(self)@, r) == model::refused(old(self)@, stream_id.value()),
    {
        match self.emit_rst(stream_id, ErrorCode::RefusedStream) {
            Ok(_) => {},
            Err(failure) => return Err(failure),
        }
        self.streams.observe_peer(stream_id);
        Ok(())
    }

    pub(super) fn advance_stream(&mut self, id: StreamId, ev: stream::Event, side: Side) -> (r:
        Result<(), TransitionError>)
        requires
            old(self).wf(),
        ensures
            final(self).wf(),
            (final(self)@, r) == model::advanced(old(self)@, id.value(), ev, side),
            final(self).ingress == old(self).ingress,
    {
        proof {
            self.streams.lemma_wf();
        }
        let mut record: StreamRecord = match self.streams.get(id) {
            None => return Err(TransitionError::Protocol),
            Some(record) => *record,
        };
        let next = match record.stream.state.step(ev, side) {
            Err(failure) => return Err(failure),
            Ok(next) => next,
        };
        record.stream.state = next;
        self.streams.put(id, record);
        if next == State::Closed {
            if ev == stream::Event::RstStream {
                self.streams.mark_reset(id);
            }
            self.streams.remove(id);
        }
        Ok(())
    }

    fn can_track_peer_stream(&self) -> (r: bool)
        requires
            self.wf(),
        ensures
            r == model::accepts_peer(self@, R::IS_SERVER),
    {
        let limit: u32 = match self.local_settings.max_concurrent_streams {
            Some(limit) => limit,
            None => u32::MAX,
        };
        self.streams.can_accept_peer(limit as usize)
    }

    pub(super) fn track_stream(&mut self, s: Stream) -> (r: Result<(), Stream>)
        requires
            old(self).wf(),
            s.id.value() != 0,
        ensures
            final(self).wf(),
            r is Ok <==> !old(self)@.has_stream(s.id.value())
                && old(self)@.streams.records.len() < old(self)@.streams.capacity,
            r is Ok ==> final(self)@ == old(self)@.with_streams(
                stream_registry::recorded(old(self)@.streams, model::fresh(old(self)@, s)),
            ),
            r is Err ==> final(self)@ == old(self)@,
            final(self).ingress == old(self).ingress,
    {
        self.streams.insert(
            s,
            self.peer_settings.initial_window_size,
            self.local_settings.initial_window_size,
        )
    }

    fn push_event(&mut self, event: Event) -> (r: Result<(), ConnError>)
        requires
            old(self).wf(),
            old(self).lends(event),
        ensures
            final(self).wf(),
            (final(self)@, r) == model::pushed(old(self)@, event@),
    {
        self.ingress.push_event(event)
    }

    /// Notes that the peer has sent its header fields.
    fn note_headers(&mut self, id: StreamId)
        requires
            old(self).wf(),
        ensures
            final(self).wf(),
            final(self)@ == model::headers_noted(old(self)@, id.value()),
            final(self).ingress == old(self).ingress,
    {
        proof {
            self.streams.lemma_wf();
        }
        let found: Option<StreamRecord> = match self.streams.get(id) {
            None => None,
            Some(record) => Some(*record),
        };
        if let Some(record) = found {
            let mut record: StreamRecord = record;
            record.stream.peer_headers_received = true;
            self.streams.put(id, record);
        }
    }

    /// Delivers a block of header fields that was read to its end.
    fn deliver_headers(
        &mut self,
        stream_id: StreamId,
        headers: HeaderBlock,
        invalid: bool,
        end_stream: bool,
        trailing: bool,
    ) -> (r: Result<(), ConnError>)
        requires
            old(self).wf(),
            headers.within(old(self).ingress.header_parts()),
        ensures
            final(self).wf(),
            (final(self)@, r) == model::headers_done(
                old(self)@,
                stream_id.value(),
                BlockView { fields: headers@, invalid },
                end_stream,
                trailing,
            ),
    {
        if invalid {
            let _ = self.ingress.reclaim_headers(headers);
            return self.rst_evict(stream_id, ErrorCode::ProtocolError);
        }
        match self.advance_stream(stream_id, stream::Event::Headers { end_stream }, Side::Remote) {
            Ok(_) => {},
            Err(TransitionError::Protocol) => {
                let _ = self.ingress.reclaim_headers(headers);
                return Err(ConnError::Protocol);
            },
            Err(TransitionError::StreamClosed) => {
                let _ = self.ingress.reclaim_headers(headers);
                return self.rst_evict(stream_id, ErrorCode::StreamClosed);
            },
        }
        self.note_headers(stream_id);
        self.push_event(Event::Headers { stream_id, headers, end_stream, trailing })
    }

    /// Delivers a promise that was read to its end.
    fn deliver_promise(
        &mut self,
        stream_id: StreamId,
        promised: StreamId,
        headers: HeaderBlock,
        invalid: bool,
        in_parts: bool,
    ) -> (r: Result<(), ConnError>)
        requires
            old(self).wf(),
            headers.within(old(self).ingress.header_parts()),
        ensures
            final(self).wf(),
            (final(self)@, r) == model::promise_done(
                old(self)@,
                R::IS_SERVER,
                stream_id.value(),
                promised.value(),
                BlockView { fields: headers@, invalid },
                in_parts,
            ),
    {
        let ghost before = self@;
        if invalid {
            let _ = self.ingress.reclaim_headers(headers);
            if in_parts {
                return self.rst_evict(promised, ErrorCode::ProtocolError);
            }
            return self.emit_rst(promised, ErrorCode::ProtocolError);
        }
        if !StreamRegistry::<R>::is_peer_initiated(promised) || promised.as_u32()
            <= self.streams.last_peer_id().as_u32() {
            let _ = self.ingress.reclaim_headers(headers);
            return Err(ConnError::Protocol);
        }
        if !self.can_track_peer_stream() {
            let _ = self.ingress.reclaim_headers(headers);
            return self.refuse(promised);
        }
        proof {
            StreamId::lemma_id_of(promised, promised.value());
        }
        match self.track_stream(Stream::reserve_remote(promised)) {
            Ok(_) => {},
            Err(_) => {
                let _ = self.ingress.reclaim_headers(headers);
                return Err(ConnError::Protocol);
            },
        }
        self.streams.observe_peer(promised);
        assert(self@ =~= model::reserved(before, promised.value()));
        self.push_event(Event::PushPromise { stream_id, promised_stream_id: promised, headers })
    }

    fn is_trailing(&self, stream_id: StreamId) -> (r: bool)
        ensures
            r == (self@.has_stream(stream_id.value())
                && self@.streams.records[stream_id.value()].stream.peer_headers_received),
    {
        match self.streams.get(stream_id) {
            Some(record) => record.stream.peer_headers_received,
            None => false,
        }
    }

    /// Reads the header fields of a stream that is there.
    fn read_headers(
        &mut self,
        stream_id: StreamId,
        end_stream: bool,
        end_headers: bool,
        fragment: &[u8],
        contiguous: bool,
    ) -> (r: Result<(), ConnError>)
        requires
            old(self).wf(),
            old(self)@.ingress.active is None,
        ensures
            final(self).wf(),
            exists|place: bool|
                (final(self)@, r) == #[trigger] model::headers_read(
                    old(self)@,
                    R::IS_SERVER,
                    stream_id.value(),
                    end_stream,
                    end_headers,
                    PieceView { bytes: fragment@, contiguous },
                    place,
                ),
    {
        let ghost piece = PieceView { bytes: fragment@, contiguous };
        let ghost id = stream_id.value();
        proof {
            reveal(model::headers_read);
        }
        let ghost given = model::headers_read(
            self@,
            R::IS_SERVER,
            id,
            end_stream,
            end_headers,
            piece,
            true,
        );
        let ghost refused = model::headers_read(
            self@,
            R::IS_SERVER,
            id,
            end_stream,
            end_headers,
            piece,
            false,
        );
        let trailing = self.is_trailing(stream_id);
        if end_headers {
            match self.ingress.complete_headers(
                fragment,
                contiguous,
                R::IS_SERVER,
                trailing,
            ) {
                Err(failure) => Err(failure),
                Ok((headers, invalid)) => self.deliver_headers(
                    stream_id,
                    headers,
                    invalid,
                    end_stream,
                    trailing,
                ),
            }
        } else {
            self.ingress.begin_headers(
                fragment,
                R::IS_SERVER,
                trailing,
                PendingHeaders {
                    stream_id,
                    kind: PendingKind::Headers { end_stream, trailing },
                    continuations: 0,
                },
            )
        }
    }

    #[verifier::spinoff_prover]
    #[verifier::rlimit(30)]
    fn handle_headers_frame(
        &mut self,
        stream_id: StreamId,
        end_stream: bool,
        end_headers: bool,
        fragment: &[u8],
        contiguous: bool,
    ) -> (r: Result<(), ConnError>)
        requires
            old(self).wf(),
            old(self)@.ingress.active is None,
        ensures
            final(self).wf(),
            exists|place: bool|
                (final(self)@, r) == #[trigger] model::headers_handled(
                    old(self)@,
                    R::IS_SERVER,
                    stream_id.value(),
                    end_stream,
                    end_headers,
                    PieceView { bytes: fragment@, contiguous },
                    place,
                ),
            final(self)@.ingress.input == old(self)@.ingress.input,
    {
        proof {
            reveal(model::headers_handled);
        }
        let ghost before = self@;
        let ghost piece = PieceView { bytes: fragment@, contiguous };
        let ghost id = stream_id.value();
        let ghost refused = model::headers_handled(
            before,
            R::IS_SERVER,
            id,
            end_stream,
            end_headers,
            piece,
            false,
        );
        match self.streams.classify(stream_id) {
            StreamClass::Connection => return Err(ConnError::Protocol),
            StreamClass::ClosedEnd => return Err(ConnError::StreamClosed),
            StreamClass::ClosedRst => return self.emit_rst(stream_id, ErrorCode::StreamClosed),
            StreamClass::Idle => {
                if !StreamRegistry::<R>::is_peer_initiated(stream_id) {
                    return Err(ConnError::Protocol);
                }
                if self.goaway_sent {
                    return self.emit_rst(stream_id, ErrorCode::RefusedStream);
                }
                if !self.can_track_peer_stream() {
                    return self.refuse(stream_id);
                }
                proof {
                    StreamId::lemma_id_of(stream_id, stream_id.value());
                }
                let tracked_ok = self.track_stream(Stream::new(stream_id));
                assert(tracked_ok is Ok);
                self.streams.observe_peer(stream_id);
                assert(self@ =~= model::peer_opened(before, stream_id.value()));
            },
            StreamClass::Active => {},
        }
        let ghost mid = self@;
        let r = self.read_headers(stream_id, end_stream, end_headers, fragment, contiguous);
        proof {
            let place = choose|place: bool|
                (self@, r) == #[trigger] model::headers_read(
                    mid,
                    R::IS_SERVER,
                    id,
                    end_stream,
                    end_headers,
                    piece,
                    place,
                );
            assert((self@, r) == model::headers_handled(
                before,
                R::IS_SERVER,
                id,
                end_stream,
                end_headers,
                piece,
                place,
            ));
            progress::lemma_headers_handled(
                before,
                R::IS_SERVER,
                id,
                end_stream,
                end_headers,
                piece,
                place,
            );
        }
        r
    }

    fn handle_push_promise_frame(
        &mut self,
        stream_id: StreamId,
        promised: StreamId,
        end_headers: bool,
        fragment: &[u8],
        contiguous: bool,
    ) -> (r: Result<(), ConnError>)
        requires
            old(self).wf(),
            old(self)@.ingress.active is None,
        ensures
            final(self).wf(),
            exists|place: bool|
                (final(self)@, r) == #[trigger] model::promise_handled(
                    old(self)@,
                    R::IS_SERVER,
                    stream_id.value(),
                    promised.value(),
                    end_headers,
                    PieceView { bytes: fragment@, contiguous },
                    place,
                ),
            final(self)@.ingress.input == old(self)@.ingress.input,
    {
        proof {
            reveal(model::promise_handled);
        }
        let ghost piece = PieceView { bytes: fragment@, contiguous };
        let ghost given = model::promise_handled(
            self@,
            R::IS_SERVER,
            stream_id.value(),
            promised.value(),
            end_headers,
            piece,
            true,
        );
        let ghost refused = model::promise_handled(
            self@,
            R::IS_SERVER,
            stream_id.value(),
            promised.value(),
            end_headers,
            piece,
            false,
        );
        if R::IS_SERVER {
            return Err(ConnError::Protocol);
        }
        if end_headers {
            match self.ingress.complete_headers(fragment, contiguous, true, false) {
                Err(failure) => Err(failure),
                Ok((headers, invalid)) => self.deliver_promise(
                    stream_id,
                    promised,
                    headers,
                    invalid,
                    false,
                ),
            }
        } else {
            self.ingress.begin_headers(
                fragment,
                true,
                false,
                PendingHeaders {
                    stream_id,
                    kind: PendingKind::PushPromise { promised },
                    continuations: 0,
                },
            )
        }
    }

    /// Comes to the end of a block that came in several frames.
    fn finish_block(&mut self, pending: PendingHeaders) -> (r: Result<(), ConnError>)
        requires
            old(self).wf(),
        ensures
            final(self).wf(),
            (final(self)@, r) == model::block_finished(old(self)@, R::IS_SERVER, pending@),
    {
        let finished = self.ingress.finish_headers();
        self.ingress.clear_pending();
        match finished {
            Err(failure) => Err(failure),
            Ok((headers, invalid)) => match pending.kind {
                PendingKind::Headers { end_stream, trailing } => self.deliver_headers(
                    pending.stream_id,
                    headers,
                    invalid,
                    end_stream,
                    trailing,
                ),
                PendingKind::PushPromise { promised } => self.deliver_promise(
                    pending.stream_id,
                    promised,
                    headers,
                    invalid,
                    true,
                ),
            },
        }
    }

    fn handle_continuation_frame(
        &mut self,
        stream_id: StreamId,
        end_headers: bool,
        fragment: &[u8],
    ) -> (r: Result<(), ConnError>)
        requires
            old(self).wf(),
        ensures
            final(self).wf(),
            (final(self)@, r) == model::continuation_handled(
                old(self)@,
                R::IS_SERVER,
                stream_id.value(),
                end_headers,
                fragment@,
            ),
            final(self)@.ingress.input == old(self)@.ingress.input,
    {
        proof {
            reveal(model::continuation_handled);
        }
        let pending: PendingHeaders = match self.ingress.pending() {
            None => return Err(ConnError::Continuation),
            Some(pending) => pending,
        };
        if pending.stream_id.as_u32() != stream_id.as_u32() {
            return Err(ConnError::Continuation);
        }
        if fragment.len() == 0 && !end_headers {
            return Err(ConnError::Continuation);
        }
        let mut next: PendingHeaders = pending;
        next.continuations = pending.continuations.saturating_add(1);
        self.ingress.count_continuation(next);
        if next.continuations > MAX_CONTINUATION_FRAMES {
            return Err(ConnError::Overload);
        }
        match self.ingress.continue_headers(fragment) {
            Ok(_) => {},
            Err(failure) => return Err(failure),
        }
        if end_headers {
            self.finish_block(pending)
        } else {
            Ok(())
        }
    }

    /// Announces more room in a window.
    fn release(&mut self, stream_id: StreamId, increment: Option<u32>)
        requires
            old(self).wf(),
            old(self)@.egress.has_room(SHORT_FRAME_LEN as int),
            increment matches Some(n) ==> 0 < n <= Window::MAX,
        ensures
            final(self).wf(),
            final(self)@ == model::released(old(self)@, stream_id.value(), increment),
            final(self).ingress == old(self).ingress,
    {
        if let Some(n) = increment {
            if let Some(increment) = WindowIncrement::new(n) {
                let _ = self.egress.window_update(stream_id, increment);
            }
        }
    }

    /// Debits the windows for data, and announces room again once half of it is used.
    fn receive_data(&mut self, stream_id: StreamId, n: usize) -> (r: Result<(), ConnError>)
        requires
            old(self).wf(),
            old(self)@.has_stream(stream_id.value()),
            old(self)@.egress.has_room(2 * SHORT_FRAME_LEN),
        ensures
            final(self).wf(),
            ({
                let v = old(self)@;
                let record = v.streams.records[stream_id.value()];
                match flow::received_pair(
                    v.recv_window,
                    record.recv_window,
                    n as int,
                    (v.pending_release, record.pending_release),
                    (
                        model::threshold(v.recv_target),
                        model::threshold(v.local.initial_window_size),
                    ),
                    true,
                ) {
                    Err(_) => r == Err::<(), ConnError>(ConnError::FlowControl) && final(self)@
                        == model::windows_refused(v, stream_id.value(), n as int),
                    Ok(received) => r is Ok && final(self)@ == model::windows_received(
                        v,
                        stream_id.value(),
                        received,
                    ),
                }
            }),
            final(self).ingress == old(self).ingress,
    {
        proof {
            self.streams.lemma_wf();
            self.egress.lemma_wf();
        }
        let mut record: StreamRecord = match self.streams.get(stream_id) {
            None => return Err(ConnError::Protocol),
            Some(record) => *record,
        };
        match self.recv_window.consume(n) {
            Ok(_) => {},
            Err(_) => return Err(ConnError::FlowControl),
        }
        match record.recv_window.consume(n) {
            Ok(_) => {},
            Err(_) => return Err(ConnError::FlowControl),
        }
        if n == 0 {
            self.streams.put(stream_id, record);
            return Ok(());
        }
        let conn_pending: u32 = self.conn_pending_release.saturating_add(n as u32);
        if conn_pending >= half_of(self.recv_window_target) {
            self.conn_pending_release = 0;
            match self.recv_window.increase(conn_pending) {
                Ok(_) => {},
                Err(_) => {
                    self.streams.put(stream_id, record);
                    return Err(ConnError::FlowControl);
                },
            }
            self.release(StreamId::connection(), Some(conn_pending));
        } else {
            self.conn_pending_release = conn_pending;
        }
        let stream_pending: u32 = record.pending_release.saturating_add(n as u32);
        if stream_pending >= half_of(self.local_settings.initial_window_size) {
            record.pending_release = 0;
            match record.recv_window.increase(stream_pending) {
                Ok(_) => {},
                Err(_) => {
                    self.streams.put(stream_id, record);
                    return Err(ConnError::FlowControl);
                },
            }
            self.streams.put(stream_id, record);
            self.release(stream_id, Some(stream_pending));
        } else {
            record.pending_release = stream_pending;
            self.streams.put(stream_id, record);
        }
        Ok(())
    }

    fn handle_data_frame(
        &mut self,
        stream_id: StreamId,
        end_stream: bool,
        payload: DataPayload,
    ) -> (r: Result<(), ConnError>)
        requires
            old(self).wf(),
            payload.place_of() == old(self).ingress.data_pool(),
            old(self)@.egress.has_room(2 * SHORT_FRAME_LEN),
        ensures
            final(self).wf(),
            (final(self)@, r) == model::data_handled(
                old(self)@,
                R::IS_SERVER,
                stream_id.value(),
                end_stream,
                payload@,
            ),
            final(self)@.ingress.input == old(self)@.ingress.input,
    {
        proof {
            reveal(model::data_handled);
        }
        match self.streams.classify(stream_id) {
            StreamClass::Connection => {
                let _ = self.ingress.reclaim_data(payload);
                return Err(ConnError::Protocol);
            },
            StreamClass::Idle => {
                let _ = self.ingress.reclaim_data(payload);
                return Err(ConnError::Protocol);
            },
            StreamClass::ClosedEnd => {
                let _ = self.ingress.reclaim_data(payload);
                return Err(ConnError::StreamClosed);
            },
            StreamClass::ClosedRst => {
                let _ = self.ingress.reclaim_data(payload);
                return self.emit_rst(stream_id, ErrorCode::StreamClosed);
            },
            StreamClass::Active => {},
        }
        match self.receive_data(stream_id, payload.len()) {
            Ok(_) => {},
            Err(failure) => {
                let _ = self.ingress.reclaim_data(payload);
                return Err(failure);
            },
        }
        match self.advance_stream(stream_id, stream::Event::Data { end_stream }, Side::Remote) {
            Ok(_) => {},
            Err(TransitionError::Protocol) => {
                let _ = self.ingress.reclaim_data(payload);
                return Err(ConnError::Protocol);
            },
            Err(TransitionError::StreamClosed) => {
                let _ = self.ingress.reclaim_data(payload);
                return self.rst_evict(stream_id, ErrorCode::StreamClosed);
            },
        }
        self.push_event(Event::Data { stream_id, data: payload, end_stream })
    }

    fn handle_window_update_frame(&mut self, stream_id: StreamId, increment: u32) -> (r: Result<
        (),
        ConnError,
    >)
        requires
            old(self).wf(),
        ensures
            final(self).wf(),
            (final(self)@, r) == model::update_handled(
                old(self)@,
                R::IS_SERVER,
                stream_id.value(),
                increment,
            ),
            final(self)@.ingress.input == old(self)@.ingress.input,
    {
        proof {
            self.streams.lemma_wf();
        }
        match self.streams.classify(stream_id) {
            StreamClass::Connection => {
                match self.send_window.increase(increment) {
                    Ok(_) => {},
                    Err(failure) => return Err(ConnError::from(failure)),
                }
                self.send_window_opened = true;
                Ok(())
            },
            StreamClass::Idle => Err(ConnError::Protocol),
            StreamClass::ClosedRst | StreamClass::ClosedEnd => Ok(()),
            StreamClass::Active => {
                let mut record: StreamRecord = match self.streams.get(stream_id) {
                    None => return Err(ConnError::Protocol),
                    Some(record) => *record,
                };
                match record.send_window.increase(increment) {
                    Ok(_) => {},
                    Err(failure) => return Err(ConnError::from(failure)),
                }
                self.streams.put(stream_id, record);
                self.send_window_opened = true;
                Ok(())
            },
        }
    }

    fn handle_rst_frame(&mut self, stream_id: StreamId, error: ErrorCode) -> (r: Result<
        (),
        ConnError,
    >)
        requires
            old(self).wf(),
        ensures
            final(self).wf(),
            (final(self)@, r) == model::rst_handled(
                old(self)@,
                R::IS_SERVER,
                stream_id.value(),
                error,
            ),
            final(self)@.ingress.input == old(self)@.ingress.input,
    {
        match self.streams.classify(stream_id) {
            StreamClass::Connection => return Err(ConnError::Protocol),
            StreamClass::Idle => return Err(ConnError::Protocol),
            StreamClass::ClosedRst | StreamClass::ClosedEnd => return Ok(()),
            StreamClass::Active => {},
        }
        let count: u32 = self.peer_reset_count.saturating_add(1);
        if count > MAX_RESET_STREAMS {
            return Err(ConnError::Overload);
        }
        let _ = self.advance_stream(stream_id, stream::Event::RstStream, Side::Remote);
        match self.push_event(Event::StreamReset { stream_id, error }) {
            Ok(_) => {},
            Err(failure) => return Err(failure),
        }
        self.peer_reset_count = count;
        Ok(())
    }

    fn take_settings(&mut self, header: FrameHeader, payload: &[u8]) -> (r: Result<(), ConnError>)
        requires
            old(self).wf(),
            payload@ == model::payload_of(old(self)@, header@),
            payload@.len() == header.length.value(),
            HEADER_LEN + header.length.value() <= old(self)@.ingress.input.bytes().len(),
        ensures
            final(self).wf(),
            exists|order: Seq<u32>|
                (final(self)@, r) == #[trigger] model::settings_frame(
                    old(self)@,
                    header@,
                    payload@,
                    order,
                ),
            r is Ok ==> final(self)@.ingress.input == old(self)@.ingress.input.without(
                HEADER_LEN + header.length.value(),
            ),
    {
        proof {
            reveal(model::settings_frame);
        }
        let ghost before = self@;
        let ghost plain = model::settings_frame(before, header@, payload@, Seq::empty());
        let total: usize = HEADER_LEN + header.length.as_usize();
        let ack = header.flags.has(Flags::ACK);
        if !header.stream_id.is_zero() {
            return Err(ConnError::from(ParseError::Protocol));
        }
        if (ack && header.length.as_u32() != 0) || header.length.as_u32() % 6 != 0 {
            return Err(ConnError::from(ParseError::FrameSize));
        }
        if ack {
            self.peer_settings_received = true;
            match self.push_event(Event::SettingsAck) {
                Ok(_) => {},
                Err(failure) => return Err(failure),
            }
            self.ingress.consume(total);
            return Ok(());
        }
        match self.egress.reserve(HEADER_LEN) {
            Ok(_) => {},
            Err(failure) => return Err(failure),
        }
        let (next, sized): (Settings, bool) = match apply_params(self.peer_settings, payload) {
            Ok(applied) => applied,
            Err(failure) => return Err(failure),
        };
        let delta: i32 = next.initial_window_size as i32
            - self.peer_settings.initial_window_size as i32;
        let ghost records = self@.streams.records;
        match self.streams.adjust_send_windows(delta) {
            Ok(_) => {},
            Err(_) => {
                proof {
                    let order = choose|order: Seq<u32>|
                        stream_registry::walks(records, order) && self@.streams == (RegistryView {
                            records: #[trigger] stream_registry::moved_along(
                                records,
                                order,
                                delta as int,
                            ).0,
                            ..before.streams
                        });
                    assert((self@, Err::<(), ConnError>(ConnError::FlowControl))
                        == model::settings_frame(before, header@, payload@, order));
                }
                return Err(ConnError::FlowControl);
            },
        }
        self.peer_settings = next;
        if sized {
            let size: u32 = dynamic_table::limit_for(next.header_table_size);
            self.egress.set_header_table_size(size as usize);
        }
        self.ingress.consume(total);
        let _ = self.egress.settings_ack();
        match self.push_event(Event::SettingsApplied) {
            Ok(_) => {},
            Err(failure) => {
                if delta > 0 {
                    self.send_window_opened = true;
                }
                return Err(failure);
            },
        }
        if delta > 0 {
            self.send_window_opened = true;
        }
        Ok(())
    }

    fn take_ping(&mut self, header: FrameHeader, payload: &[u8]) -> (r: Result<(), ConnError>)
        requires
            old(self).wf(),
            payload@.len() == header.length.value(),
            HEADER_LEN + header.length.value() <= old(self)@.ingress.input.bytes().len(),
        ensures
            final(self).wf(),
            (final(self)@, r) == model::ping_frame(old(self)@, header@, payload@),
            r is Ok ==> final(self)@.ingress.input == old(self)@.ingress.input.without(
                HEADER_LEN + header.length.value(),
            ),
    {
        proof {
            reveal(model::ping_frame);
        }
        let total: usize = HEADER_LEN + header.length.as_usize();
        let parsed: Ping = match Ping::parse(header, payload) {
            Ok(parsed) => parsed,
            Err(failure) => return Err(ConnError::from(failure)),
        };
        assert(parsed.opaque@ == payload@);
        if parsed.ack {
            match self.push_event(Event::Ping { ack: true, opaque: parsed.opaque }) {
                Ok(_) => {},
                Err(failure) => return Err(failure),
            }
            self.ingress.consume(total);
            return Ok(());
        }
        match self.egress.reserve(HEADER_LEN + 8) {
            Ok(_) => {},
            Err(failure) => return Err(failure),
        }
        self.ingress.consume(total);
        let pong = Ping { ack: true, opaque: parsed.opaque };
        let mut wire: Vec<u8> = Vec::new();
        pong.encode(&mut wire);
        assert(wire@ =~= frame::frame_wire(pong@));
        assert(wire@.len() == HEADER_LEN + 8);
        self.egress.write(wire.as_slice());
        self.push_event(Event::Ping { ack: false, opaque: parsed.opaque })
    }

    fn take_goaway(
        &mut self,
        header: FrameHeader,
        payload: &[u8],
    ) -> (r: Result<(), ConnError>)
        requires
            old(self).wf(),
            payload@.len() == header.length.value(),
            HEADER_LEN + header.length.value() <= old(self)@.ingress.input.bytes().len(),
        ensures
            final(self).wf(),
            exists|place: bool|
                (final(self)@, r) == #[trigger] model::goaway_frame(
                    old(self)@,
                    header@,
                    payload@,
                    place,
                ),
            r is Ok ==> final(self)@.ingress.input == old(self)@.ingress.input.without(
                HEADER_LEN + header.length.value(),
            ),
    {
        proof {
            reveal(model::goaway_frame);
        }
        let ghost given = model::goaway_frame(self@, header@, payload@, true);
        let ghost refused = model::goaway_frame(self@, header@, payload@, false);
        let total: usize = HEADER_LEN + header.length.as_usize();
        if header.length.as_u32() < 8 {
            return Err(ConnError::from(ParseError::FrameSize));
        }
        let parsed: GoAway<'_> = match GoAway::parse(header, payload) {
            Ok(parsed) => parsed,
            Err(failure) => return Err(ConnError::from(failure)),
        };
        let permit = match self.ingress.data_place() {
            None => return Err(ConnError::Overload),
            Some(permit) => permit,
        };
        let debug = DataPayload::from_retained(crate::bytes::to_vec(parsed.debug()), permit);
        let error = parsed.error();
        let last_stream_id = parsed.last_stream_id();
        self.goaway_received = Some(error);
        match self.push_event(Event::GoAway { last_stream_id, error, debug }) {
            Ok(_) => {},
            Err(failure) => return Err(failure),
        }
        self.ingress.consume(total);
        Ok(())
    }

    fn take_window_update(&mut self, header: FrameHeader, payload: &[u8]) -> (r: Result<
        (),
        ConnError,
    >)
        requires
            old(self).wf(),
            payload@.len() == header.length.value(),
            HEADER_LEN + header.length.value() <= old(self)@.ingress.input.bytes().len(),
        ensures
            final(self).wf(),
            (final(self)@, r) == model::update_frame(
                old(self)@,
                R::IS_SERVER,
                header@,
                payload@,
            ),
            r is Ok ==> final(self)@.ingress.input == old(self)@.ingress.input.without(
                HEADER_LEN + header.length.value(),
            ),
    {
        proof {
            reveal(model::update_frame);
        }
        let total: usize = HEADER_LEN + header.length.as_usize();
        let parsed: WindowUpdate = match WindowUpdate::parse(header, payload) {
            Ok(parsed) => parsed,
            Err(failure) => return Err(ConnError::from(failure)),
        };
        self.ingress.consume(total);
        self.handle_window_update_frame(parsed.stream_id, parsed.increment.get())
    }

    fn take_rst_stream(&mut self, header: FrameHeader, payload: &[u8]) -> (r: Result<
        (),
        ConnError,
    >)
        requires
            old(self).wf(),
            payload@.len() == header.length.value(),
            HEADER_LEN + header.length.value() <= old(self)@.ingress.input.bytes().len(),
        ensures
            final(self).wf(),
            (final(self)@, r) == model::rst_frame(old(self)@, R::IS_SERVER, header@, payload@),
            r is Ok ==> final(self)@.ingress.input == old(self)@.ingress.input.without(
                HEADER_LEN + header.length.value(),
            ),
    {
        proof {
            reveal(model::rst_frame);
        }
        let total: usize = HEADER_LEN + header.length.as_usize();
        let parsed: RstStream = match RstStream::parse(header, payload) {
            Ok(parsed) => parsed,
            Err(failure) => return Err(ConnError::from(failure)),
        };
        self.ingress.consume(total);
        self.handle_rst_frame(parsed.stream_id(), parsed.error())
    }

    fn take_priority(&mut self, header: FrameHeader, payload: &[u8]) -> (r: Result<(), ConnError>)
        requires
            old(self).wf(),
            payload@.len() == header.length.value(),
            HEADER_LEN + header.length.value() <= old(self)@.ingress.input.bytes().len(),
        ensures
            final(self).wf(),
            (final(self)@, r) == model::priority_frame(old(self)@, header@, payload@),
            r is Ok ==> final(self)@.ingress.input == old(self)@.ingress.input.without(
                HEADER_LEN + header.length.value(),
            ),
    {
        proof {
            reveal(model::priority_frame);
        }
        match Priority::parse(header, payload) {
            Ok(_) => {},
            Err(failure) => return Err(ConnError::from(failure)),
        }
        self.ingress.consume(HEADER_LEN + header.length.as_usize());
        Ok(())
    }

    fn take_data(
        &mut self,
        header: FrameHeader,
        payload: &[u8],
    ) -> (r: Result<(), ConnError>)
        requires
            old(self).wf(),
            payload@.len() == header.length.value(),
            HEADER_LEN + header.length.value() <= old(self)@.ingress.input.bytes().len(),
        ensures
            final(self).wf(),
            exists|place: bool|
                (final(self)@, r) == #[trigger] model::data_frame(
                    old(self)@,
                    R::IS_SERVER,
                    header@,
                    payload@,
                    place,
                ),
            r is Ok ==> final(self)@.ingress.input == old(self)@.ingress.input.without(
                HEADER_LEN + header.length.value(),
            ),
    {
        proof {
            reveal(model::data_frame);
        }
        let ghost given = model::data_frame(self@, R::IS_SERVER, header@, payload@, true);
        let ghost refused = model::data_frame(self@, R::IS_SERVER, header@, payload@, false);
        let total: usize = HEADER_LEN + header.length.as_usize();
        if header.stream_id.is_zero() {
            return Err(ConnError::from(ParseError::Protocol));
        }
        match self.egress.reserve(2 * SHORT_FRAME_LEN) {
            Ok(_) => {},
            Err(failure) => return Err(failure),
        }
        let data: &[u8] = match header.flags.strip(payload) {
            Ok(data) => data,
            Err(_) => return Err(ConnError::from(ParseError::Padding)),
        };
        let permit = match self.ingress.data_place() {
            None => return Err(ConnError::Overload),
            Some(permit) => permit,
        };
        let data = DataPayload::from_retained(crate::bytes::to_vec(data), permit);
        self.ingress.consume(total);
        self.handle_data_frame(header.stream_id, header.flags.has(Flags::END_STREAM), data)
    }

    fn take_headers(
        &mut self,
        header: FrameHeader,
        payload: &[u8],
    ) -> (r: Result<(), ConnError>)
        requires
            old(self).wf(),
            old(self)@.ingress.active is None,
            payload@.len() == header.length.value(),
            HEADER_LEN + header.length.value() <= old(self)@.ingress.input.bytes().len(),
        ensures
            final(self).wf(),
            exists|place: bool|
                (final(self)@, r) == #[trigger] model::headers_frame(
                    old(self)@,
                    R::IS_SERVER,
                    header@,
                    payload@,
                    place,
                ),
            r is Ok ==> final(self)@.ingress.input == old(self)@.ingress.input.without(
                HEADER_LEN + header.length.value(),
            ),
    {
        proof {
            reveal(model::headers_frame);
        }
        let ghost given = model::headers_frame(self@, R::IS_SERVER, header@, payload@, true);
        let ghost refused = model::headers_frame(self@, R::IS_SERVER, header@, payload@, false);
        let ghost before = self@;
        let total: usize = HEADER_LEN + header.length.as_usize();
        if header.stream_id.is_zero() {
            return Err(ConnError::from(ParseError::Protocol));
        }
        match self.egress.reserve(SHORT_FRAME_LEN) {
            Ok(_) => {},
            Err(failure) => return Err(failure),
        }
        let block: &[u8] = match header.flags.strip(payload) {
            Ok(block) => block,
            Err(_) => return Err(ConnError::from(ParseError::Padding)),
        };
        let skip: usize = if header.flags.has(Flags::PRIORITY) {
            5
        } else {
            0
        };
        if block.len() < skip {
            return Err(ConnError::from(ParseError::FrameSize));
        }
        let pad: usize = if header.flags.has(Flags::PADDED) {
            1
        } else {
            0
        };
        let fragment: &[u8] = &block[skip..block.len()];
        let contiguous = self.ingress.is_contiguous(HEADER_LEN + pad + skip, fragment.len());
        match self.handle_headers_frame(
            header.stream_id,
            header.flags.has(Flags::END_STREAM),
            header.flags.has(Flags::END_HEADERS),
            fragment,
            contiguous,
        ) {
            Ok(_) => {},
            Err(failure) => return Err(failure),
        }
        self.ingress.consume(total);
        Ok(())
    }

    fn take_push_promise(
        &mut self,
        header: FrameHeader,
        payload: &[u8],
    ) -> (r: Result<(), ConnError>)
        requires
            old(self).wf(),
            old(self)@.ingress.active is None,
            payload@.len() == header.length.value(),
            HEADER_LEN + header.length.value() <= old(self)@.ingress.input.bytes().len(),
        ensures
            final(self).wf(),
            exists|place: bool|
                (final(self)@, r) == #[trigger] model::promise_frame(
                    old(self)@,
                    R::IS_SERVER,
                    header@,
                    payload@,
                    place,
                ),
            r is Ok ==> final(self)@.ingress.input == old(self)@.ingress.input.without(
                HEADER_LEN + header.length.value(),
            ),
    {
        proof {
            reveal(model::promise_frame);
        }
        let ghost given = model::promise_frame(self@, R::IS_SERVER, header@, payload@, true);
        let ghost refused = model::promise_frame(self@, R::IS_SERVER, header@, payload@, false);
        let ghost before = self@;
        let total: usize = HEADER_LEN + header.length.as_usize();
        if header.stream_id.is_zero() {
            return Err(ConnError::from(ParseError::Protocol));
        }
        match self.egress.reserve(SHORT_FRAME_LEN) {
            Ok(_) => {},
            Err(failure) => return Err(failure),
        }
        let block: &[u8] = match header.flags.strip(payload) {
            Ok(block) => block,
            Err(_) => return Err(ConnError::from(ParseError::Padding)),
        };
        if block.len() < 4 {
            return Err(ConnError::from(ParseError::FrameSize));
        }
        let pad: usize = if header.flags.has(Flags::PADDED) {
            1
        } else {
            0
        };
        let promised = StreamId::from_wire(read_u32(block, 0));
        let fragment: &[u8] = &block[4..block.len()];
        let contiguous = self.ingress.is_contiguous(HEADER_LEN + pad + 4, fragment.len());
        match self.handle_push_promise_frame(
            header.stream_id,
            promised,
            header.flags.has(Flags::END_HEADERS),
            fragment,
            contiguous,
        ) {
            Ok(_) => {},
            Err(failure) => return Err(failure),
        }
        self.ingress.consume(total);
        Ok(())
    }

    fn take_continuation(&mut self, header: FrameHeader, payload: &[u8]) -> (r: Result<
        (),
        ConnError,
    >)
        requires
            old(self).wf(),
            payload@.len() == header.length.value(),
            HEADER_LEN + header.length.value() <= old(self)@.ingress.input.bytes().len(),
        ensures
            final(self).wf(),
            (final(self)@, r) == model::continuation_frame(
                old(self)@,
                R::IS_SERVER,
                header@,
                payload@,
            ),
            r is Ok ==> final(self)@.ingress.input == old(self)@.ingress.input.without(
                HEADER_LEN + header.length.value(),
            ),
    {
        proof {
            reveal(model::continuation_frame);
        }
        let ghost before = self@;
        let total: usize = HEADER_LEN + header.length.as_usize();
        if header.stream_id.is_zero() {
            return Err(ConnError::from(ParseError::Protocol));
        }
        match self.egress.reserve(SHORT_FRAME_LEN) {
            Ok(_) => {},
            Err(failure) => return Err(failure),
        }
        match self.handle_continuation_frame(
            header.stream_id,
            header.flags.has(Flags::END_HEADERS),
            payload,
        ) {
            Ok(_) => {},
            Err(failure) => return Err(failure),
        }
        self.ingress.consume(total);
        Ok(())
    }

    /// Deals with the first frame of the input.
    fn handle_frame(&mut self, header: FrameHeader) -> (r: Result<(), ConnError>)
        requires
            old(self).wf(),
            HEADER_LEN + header.length.value() <= old(self)@.ingress.input.bytes().len(),
        ensures
            final(self).wf(),
            exists|chance: Chance|
                (final(self)@, r) == #[trigger] model::frame_handled(
                    old(self)@,
                    R::IS_SERVER,
                    header@,
                    chance,
                ),
            r is Ok ==> final(self)@.ingress.input == old(self)@.ingress.input.without(
                HEADER_LEN + header.length.value(),
            ),
    {
        proof {
            self.ingress.lemma_wf();
        }
        let ghost before = self@;
        let ghost given = model::frame_handled(
            before,
            R::IS_SERVER,
            header@,
            Chance { place: true, order: Seq::empty() },
        );
        let ghost refused = model::frame_handled(
            before,
            R::IS_SERVER,
            header@,
            Chance { place: false, order: Seq::empty() },
        );
        let payload = self.ingress.range(HEADER_LEN, header.length.as_usize());
        let payload = payload.as_slice();
        let is_continuation = match header.kind {
            Type::Continuation => true,
            _ => false,
        };
        if self.ingress.pending().is_some() && !is_continuation {
            return Err(ConnError::Continuation);
        }
        let brings_event = match header.kind {
            Type::Settings | Type::Ping | Type::GoAway | Type::Data | Type::RstStream => true,
            Type::Headers | Type::PushPromise | Type::Continuation => header.flags.has(
                Flags::END_HEADERS,
            ),
            Type::WindowUpdate | Type::Priority => false,
        };
        if brings_event && !self.ingress.has_event_room() {
            return Err(ConnError::Overload);
        }
        match header.kind {
            Type::Settings => {
                let r = self.take_settings(header, payload);
                proof {
                    let order = choose|order: Seq<u32>|
                        (self@, r) == #[trigger] model::settings_frame(
                            before,
                            header@,
                            payload@,
                            order,
                        );
                    assert((self@, r) == model::frame_handled(
                        before,
                        R::IS_SERVER,
                        header@,
                        Chance { place: true, order },
                    ));
                }
                r
            },
            Type::Ping => self.take_ping(header, payload),
            Type::GoAway => self.take_goaway(header, payload),
            Type::WindowUpdate => self.take_window_update(header, payload),
            Type::Headers => self.take_headers(header, payload),
            Type::Data => self.take_data(header, payload),
            Type::Continuation => self.take_continuation(header, payload),
            Type::RstStream => self.take_rst_stream(header, payload),
            Type::PushPromise => self.take_push_promise(header, payload),
            Type::Priority => self.take_priority(header, payload),
        }
    }

    /// Deals with all frames of the input. Once a pool has given out as many places as it has,
    /// whether it has one for what a frame brings depends on what the owner of earlier events
    /// still holds.
    fn drive(&mut self) -> (r: Result<(), ConnError>)
        requires
            old(self).wf(),
        ensures
            final(self).wf(),
            exists|chances: Seq<Chance>|
                (final(self)@, r) == #[trigger] model::resumed(
                    old(self)@,
                    R::IS_SERVER,
                    chances,
                ),
    {
        let ghost before = self@;
        match self.ingress.accept_preface() {
            Err(failure) => {
                assert((self@, Err::<(), ConnError>(failure)) == model::resumed(
                    before,
                    R::IS_SERVER,
                    Seq::empty(),
                ));
                return Err(failure);
            },
            Ok(false) => {
                assert((self@, Ok::<(), ConnError>(())) == model::resumed(
                    before,
                    R::IS_SERVER,
                    Seq::empty(),
                ));
                return Ok(());
            },
            Ok(true) => {},
        }
        let ghost start = self@;
        let ghost mut used: Seq<Chance> = Seq::empty();
        proof {
            assert forall|chances: Seq<Chance>|
                model::driven(start, R::IS_SERVER, used + chances) == #[trigger] model::driven(
                    self@,
                    R::IS_SERVER,
                    chances,
                ) by {
                assert(used + chances =~= chances);
            }
        }
        loop
            invariant
                self.wf(),
                before == old(self)@,
                forall|chances: Seq<Chance>|
                    model::driven(start, R::IS_SERVER, used + chances) == #[trigger] model::driven(
                        self@,
                        R::IS_SERVER,
                        chances,
                    ),
                forall|chances: Seq<Chance>|
                    #[trigger] model::resumed(before, R::IS_SERVER, chances) == model::driven(
                        start,
                        R::IS_SERVER,
                        chances,
                    ),
            decreases self@.ingress.input.bytes().len(),
        {
            let ghost at = self@;
            proof {
                self.ingress.lemma_wf();
            }
            match self.ingress.next_frame(self.local_settings.max_frame_size) {
                Err(failure) => {
                    proof {
                        let _ = model::driven(at, R::IS_SERVER, Seq::empty());
                        let _ = model::resumed(before, R::IS_SERVER, used + Seq::empty());
                    }
                    assert((self@, Err::<(), ConnError>(failure)) == model::resumed(
                        before,
                        R::IS_SERVER,
                        used + Seq::empty(),
                    ));
                    return Err(failure);
                },
                Ok(Front::Wait) => {
                    proof {
                        let _ = model::driven(at, R::IS_SERVER, Seq::empty());
                    }
                    assert((self@, Ok::<(), ConnError>(())) == model::resumed(
                        before,
                        R::IS_SERVER,
                        used + Seq::empty(),
                    ));
                    return Ok(());
                },
                Ok(Front::Unknown(total)) => {
                    self.ingress.consume(total);
                    proof {
                        lemma_input_shrinks(at.ingress.input, total as int);
                        let any = Chance { place: false, order: Seq::empty() };
                        lemma_driven_on(start, at, self@, R::IS_SERVER, used, any);
                        used = used.push(any);
                    }
                },
                Ok(Front::Frame(header)) => {
                    let done = self.handle_frame(header);
                    let ghost chance = choose|chance: Chance|
                        (self@, done) == #[trigger] model::frame_handled(
                            at,
                            R::IS_SERVER,
                            header@,
                            chance,
                        );
                    match done {
                        Err(failure) => {
                            proof {
                                let rest = seq![chance];
                                let _ = model::driven(at, R::IS_SERVER, rest);
                            }
                            assert((self@, Err::<(), ConnError>(failure)) == model::resumed(
                                before,
                                R::IS_SERVER,
                                used + seq![chance],
                            ));
                            return Err(failure);
                        },
                        Ok(unit) => {
                            assert(unit == ());
                        },
                    }
                    proof {
                        lemma_input_shrinks(
                            at.ingress.input,
                            HEADER_LEN + header.length.value(),
                        );
                        lemma_driven_on(start, at, self@, R::IS_SERVER, used, chance);
                        used = used.push(chance);
                    }
                },
            }
        }
    }

    /// Takes bytes from the peer and deals with the frames that are complete.
    pub fn ingest(&mut self, bytes: &[u8]) -> (r: Result<(), ConnError>)
        requires
            old(self).wf(),
        ensures
            final(self).wf(),
            exists|chances: Seq<Chance>|
                (final(self)@, r) == #[trigger] model::ingested(
                    old(self)@,
                    R::IS_SERVER,
                    bytes@,
                    chances,
                ),
    {
        let ghost before = self@;
        match self.ingress.append(bytes) {
            Ok(_) => {},
            Err(failure) => {
                assert((self@, Err::<(), ConnError>(failure)) == model::ingested(
                    before,
                    R::IS_SERVER,
                    bytes@,
                    Seq::empty(),
                ));
                return Err(failure);
            },
        }
        let ghost mid = self@;
        let r = self.resume();
        proof {
            let chances = choose|chances: Seq<Chance>|
                (self@, r) == #[trigger] model::resumed(mid, R::IS_SERVER, chances);
            assert((self@, r) == model::ingested(before, R::IS_SERVER, bytes@, chances));
        }
        r
    }

    /// Takes bytes that the caller gives away.
    pub fn ingest_retained(&mut self, bytes: Vec<u8>) -> (r: Result<(), ConnError>)
        requires
            old(self).wf(),
        ensures
            final(self).wf(),
            exists|chances: Seq<Chance>|
                (final(self)@, r) == #[trigger] model::ingested(
                    old(self)@,
                    R::IS_SERVER,
                    bytes@,
                    chances,
                ),
    {
        self.ingest(bytes.as_slice())
    }

    /// Deals with the frames that are complete.
    pub fn resume(&mut self) -> (r: Result<(), ConnError>)
        requires
            old(self).wf(),
        ensures
            final(self).wf(),
            exists|chances: Seq<Chance>|
                (final(self)@, r) == #[trigger] model::resumed(
                    old(self)@,
                    R::IS_SERVER,
                    chances,
                ),
    {
        self.drive()
    }
}

/// The larger of half a window and one.
fn half_of(window: u32) -> (r: u32)
    ensures
        r == model::threshold(window),
{
    if window / 2 > 1 {
        window / 2
    } else {
        1
    }
}

proof fn lemma_input_shrinks(input: crate::h2::retained_segments::InputView, n: int)
    requires
        0 < n <= input.bytes().len(),
    ensures
        input.without(n).bytes().len() < input.bytes().len(),
{
    crate::h2::retained_segments::law_taking_keeps_the_rest(input, n);
}

proof fn lemma_driven_on(
    start: ConnView,
    at: ConnView,
    next: ConnView,
    server: bool,
    used: Seq<Chance>,
    chance: Chance,
)
    requires
        forall|chances: Seq<Chance>|
            model::driven(start, server, used + chances) == #[trigger] model::driven(
                at,
                server,
                chances,
            ),
        next.ingress.input.bytes().len() < at.ingress.input.bytes().len(),
        match ingress::front(at.ingress.input.bytes(), at.local.max_frame_size) {
            Ok(FrontView::Unknown(total)) => next == at.consumed(total as int),
            Ok(FrontView::Frame(h)) => model::frame_handled(at, server, h, chance) == (
                next,
                Ok::<(), ConnError>(()),
            ),
            _ => false,
        },
    ensures
        forall|chances: Seq<Chance>|
            model::driven(start, server, used.push(chance) + chances) == #[trigger] model::driven(
                next,
                server,
                chances,
            ),
{
    assert forall|chances: Seq<Chance>|
        model::driven(start, server, used.push(chance) + chances) == #[trigger] model::driven(
            next,
            server,
            chances,
        ) by {
        let more = seq![chance] + chances;
        assert(used.push(chance) + chances =~= used + more);
        assert(more.drop_first() =~= chances);
        assert(more[0] == chance);
        assert(model::driven(start, server, used + more) == model::driven(at, server, more));
    }
}

} // verus!
