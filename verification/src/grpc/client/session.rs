//! A client on one connection.

use super::call::{result_view, sent, CallStore};
use super::ingress::{Ingress, StreamEvent, UnaryResult};
use super::model;
use super::model::{ClientView, InboxView, ResponseMode, Round};
use crate::collections;
use crate::collections::{Permit, PoolPlan};
use crate::grpc::codec::Codec;
use crate::grpc::frame;
use crate::grpc::frame::{DataChunk, MessageFrame};
use crate::grpc::headers;
use crate::grpc::headers::{HeaderBlock, ResponseHead};
use crate::grpc::metadata::Metadata;
use crate::grpc::status::{Code, Status, StatusView};
use crate::h2::config as h2_config;
use crate::h2::config::ValidatedConfig;
use crate::h2::conn::model as conn_model;
use crate::h2::conn::model::{Chance, ConnView};
use crate::h2::conn::places;
use crate::h2::conn::progress;
use crate::h2::conn::Conn;
use crate::h2::error::ConnError;
use crate::h2::event::{DataPayload, Event, EventView};
use crate::h2::frame::ErrorCode;
use crate::h2::hpack;
use crate::h2::hpack::OwnedHeader;
use crate::h2::role;
use crate::h2::role::{ClientRole, Role};
use crate::h2::stream::StreamId;
use vstd::prelude::*;

verus! {

/// Whether a step of the client came out as stated.
pub open spec fn step_is(want: model::Step, after: ClientView, r: Result<(), Status>) -> bool {
    &&& want.0 == after
    &&& want.1 == result_view(r)
}

/// A client on one connection.
pub struct Session {
    h2: Conn<ClientRole>,
    calls: CallStore,
    ingress: Ingress,
    encode_buf: Vec<u8>,
}

impl Session {
    pub closed spec fn view(&self) -> ClientView {
        ClientView { conn: self.h2@, calls: self.calls@, inbox: self.ingress@ }
    }

    pub closed spec fn wf(&self) -> bool {
        self.h2.wf() && self.calls.wf()
    }

    /// The end of an answer. `missing` is said of a call that is not there.
    fn finish_stream(
        &mut self,
        stream_id: StreamId,
        status: Status,
        trailers: Metadata,
        missing: &'static str,
    ) -> (r: Result<(), Status>)
        requires
            old(self).wf(),
        ensures
            final(self).wf(),
            step_is(
                model::ended(old(self)@, stream_id.value(), status@, trailers@, missing),
                final(self)@,
                r,
            ),
            final(self)@.conn == old(self)@.conn,
    {
        let mode: ResponseMode = match self.calls.mode(stream_id) {
            Some(mode) => mode,
            None => return Err(Status::new(Code::Internal, missing)),
        };
        match self.ingress.ensure_delivery_capacity(mode) {
            Ok(_) => {},
            Err(failure) => return Err(failure),
        }
        let record = match self.calls.remove(stream_id) {
            Some(record) => record,
            None => return Err(Status::new(Code::Internal, missing)),
        };
        match mode {
            ResponseMode::Unary => self.ingress.push_unary(
                UnaryResult {
                    stream_id,
                    metadata: record.metadata,
                    message: record.message,
                    trailers,
                    status,
                },
            ),
            ResponseMode::Streaming => self.ingress.push_event(
                StreamEvent::Trailers { stream_id, metadata: trailers, status },
            ),
        }
    }

    /// A message of an answer.
    fn take_message(&mut self, stream_id: StreamId, message: MessageFrame) -> (r: Result<
        (),
        Status,
    >)
        requires
            old(self).wf(),
            old(self)@.calls.has(stream_id.value()),
        ensures
            final(self).wf(),
            step_is(
                model::message_taken(old(self)@, stream_id.value(), message@),
                final(self)@,
                r,
            ),
            final(self)@.conn == old(self)@.conn,
    {
        let ghost before = self@;
        let ghost id = stream_id.value();
        let (max_len, max_msgs): (usize, usize) = self.ingress.limits();
        let fits: bool = self.calls.count_message(
            stream_id,
            message.payload.len(),
            max_len,
            max_msgs,
        );
        if !fits {
            return Err(Status::new(Code::ResourceExhausted, "stream buffer limit exceeded"));
        }
        let ghost mid = self@;
        match self.calls.mode(stream_id) {
            Some(ResponseMode::Streaming) => self.ingress.push_event(
                StreamEvent::Message { stream_id, message },
            ),
            _ => {
                let ghost m = message@;
                let first: bool = self.calls.put_message(stream_id, message);
                assert(self@.calls.calls =~= before.calls.calls.insert(
                    id,
                    model::CallView { message: Some(m), ..mid.calls.calls[id] },
                ));
                if first {
                    Ok(())
                } else {
                    Err(Status::new(Code::Internal, "unary response has multiple messages"))
                }
            },
        }
    }

    /// Bytes of an answer. Whether there is a place for a message that is not complete, only
    /// the pool can say.
    fn take_data(&mut self, stream_id: StreamId, data: DataPayload) -> (r: Result<(), Status>)
        requires
            old(self).wf(),
        ensures
            final(self).wf(),
            exists|place: bool|
                step_is(
                    #[trigger] model::data_taken(old(self)@, stream_id.value(), data@, place),
                    final(self)@,
                    r,
                ),
            final(self)@.conn == old(self)@.conn,
    {
        let ghost before = self@;
        let ghost id = stream_id.value();
        let ghost all = data@;
        let mut input: DataChunk = DataChunk::new(data);
        let (_, max_msgs): (usize, usize) = self.ingress.limits();
        let ghost mut left: int = max_msgs as int;
        proof {
            if before.calls.has(id) {
                left = max_msgs - before.calls.calls[id].message_count;
            }
        }
        while !input.is_empty()
            invariant
                self.wf(),
                before == old(self)@,
                id == stream_id.value(),
                all == data@,
                self@.conn == before.conn,
                self@.inbox.max_msgs == max_msgs,
                self@.calls.has(id) ==> left == max_msgs
                    - self@.calls.calls[id].message_count,
                forall|place: bool|
                    model::data_taken(before, id, all, place) == #[trigger] model::data_taken(
                        self@,
                        id,
                        input@,
                        place,
                    ),
            decreases
                    left,
                    (if input@.len() > 0 {
                        1int
                    } else {
                        0
                    }),
        {
            let ghost at = self@;
            let ghost rest = input@;
            if self.calls.mode(stream_id).is_none() {
                assert(model::data_taken(before, id, all, true) == model::data_taken(
                    at,
                    id,
                    rest,
                    true,
                ));
                return Err(Status::new(Code::Internal, "event for unknown gRPC stream"));
            }
            let needs: bool = self.calls.needs_place(stream_id, &input);
            let place: Option<Permit> = if needs {
                self.ingress.message_place()
            } else {
                None
            };
            let ghost granted = place is Some;
            let ghost d = at.calls.calls[id].deframer;
            proof {
                frame::lemma_places(d, rest);
                assert(frame::deframed(d, rest, at.inbox.fragments.gives(granted))
                    == frame::deframed(d, rest, granted));
                assert(self@.inbox.fragments == frame::asked_for(
                    at.inbox.fragments,
                    d,
                    rest,
                    granted,
                ));
                assert(model::data_taken(before, id, all, granted) == model::data_taken(
                    at,
                    id,
                    rest,
                    granted,
                ));
            }
            let next = self.calls.next_message(stream_id, &mut input, place);
            let ghost read = self@;
            match next {
                Err(error) => return Err(Status::from_frame_err(error)),
                Ok(None) => {
                    assert(input@.len() == 0);
                    assert(model::data_taken(before, id, all, granted) == (
                        self@,
                        Ok::<(), StatusView>(()),
                    ));
                    return Ok(());
                },
                Ok(Some(message)) => {
                    let ghost m = message@;
                    match self.take_message(stream_id, message) {
                        Ok(_) => {},
                        Err(status) => return Err(status),
                    }
                    proof {
                        assert(!needs);
                        assert forall|place: bool|
                            model::data_taken(before, id, all, place)
                                == #[trigger] model::data_taken(self@, id, input@, place) by {
                            assert(model::data_taken(at, id, rest, place) == model::data_taken(
                                before,
                                id,
                                all,
                                place,
                            ));
                            assert(frame::deframed(d, rest, at.inbox.fragments.gives(place))
                                == frame::deframed(d, rest, granted));
                        }
                        left = left - 1;
                    }
                },
            }
        }
        assert(model::data_taken(before, id, all, true) == model::data_taken(
            self@,
            id,
            input@,
            true,
        ));
        Ok(())
    }

    /// The start of an answer.
    fn take_head(&mut self, stream_id: StreamId, fields: &[OwnedHeader], end_stream: bool) -> (r:
        Result<(), Status>)
        requires
            old(self).wf(),
        ensures
            final(self).wf(),
            step_is(
                model::head_taken(
                    old(self)@,
                    stream_id.value(),
                    hpack::fields(fields@),
                    end_stream,
                ),
                final(self)@,
                r,
            ),
            final(self)@.conn == old(self)@.conn,
    {
        let head: ResponseHead = match ResponseHead::parse_h2(fields) {
            Ok(head) => head,
            Err(status) => return Err(status),
        };
        match self.calls.mode(stream_id) {
            None => {
                return Err(Status::new(Code::Internal, "event for unknown gRPC stream"));
            },
            Some(ResponseMode::Unary) => self.calls.set_metadata(stream_id, head.metadata),
            Some(ResponseMode::Streaming) => {
                match self.ingress.push_event(
                    StreamEvent::Headers { stream_id, metadata: head.metadata },
                ) {
                    Ok(_) => {},
                    Err(status) => return Err(status),
                }
            },
        }
        if end_stream {
            match Status::parse_h2_trailers(fields) {
                Ok((status, trailers)) => self.finish_stream(
                    stream_id,
                    status,
                    trailers,
                    "trailers for unknown gRPC stream",
                ),
                Err(status) => Err(status),
            }
        } else {
            Ok(())
        }
    }

    /// Deals with an event of the connection.
    fn take_event(&mut self, event: Event) -> (r: Result<(), Status>)
        requires
            old(self).wf(),
            old(self).h2.lends(event),
        ensures
            final(self).wf(),
            exists|place: bool|
                step_is(
                    #[trigger] model::event_taken(model::freed(old(self)@, event@), event@, place),
                    final(self)@,
                    r,
                ),
            final(self)@.conn.ingress == old(self)@.conn.ingress.keeping_data(event@),
    {
        reveal(model::event_taken);
        let ghost view = event@;
        let ghost before = model::freed(self@, view);
        proof {
            let _ = model::event_taken(before, view, true);
        }
        match event {
            Event::Headers { stream_id, headers, end_stream, trailing } => {
                let list: Vec<OwnedHeader> = self.h2.reclaim_headers(headers);
                assert(self@ =~= before);
                if !trailing {
                    return self.take_head(stream_id, list.as_slice(), end_stream);
                }
                match Status::parse_h2_trailers(list.as_slice()) {
                    Ok((status, trailers)) => {
                        match self.finish_stream(
                            stream_id,
                            status,
                            trailers,
                            "trailers for unknown gRPC stream",
                        ) {
                            Ok(_) => {},
                            Err(status) => return Err(status),
                        }
                        if end_stream {
                            Ok(())
                        } else {
                            Err(Status::new(Code::Internal, "trailers without END_STREAM"))
                        }
                    },
                    Err(status) => Err(status),
                }
            },
            Event::Data { stream_id, data, end_stream } => {
                let ghost all = data@;
                let ghost id = stream_id.value();
                let taken = self.take_data(stream_id, data);
                let ghost place = choose|place: bool|
                    step_is(
                        #[trigger] model::data_taken(before, id, all, place),
                        self@,
                        taken,
                    );
                proof {
                    let _ = model::event_taken(before, view, place);
                }
                match taken {
                    Ok(_) => {},
                    Err(status) => return Err(status),
                }
                if end_stream {
                    proof {
                        conn_model::lemma_sending_keeps_ingress(self@.conn, id);
                    }
                    self.calls.abort(&mut self.h2, stream_id);
                    return Err(Status::new(Code::Internal, "missing grpc-status"));
                }
                Ok(())
            },
            Event::StreamReset { stream_id, error } => self.finish_stream(
                stream_id,
                Status::from_reset_err(error),
                Metadata::new(),
                "reset for unknown stream",
            ),
            other => {
                self.h2.reclaim(other);
                assert(self@ =~= before);
                Ok(())
            },
        }
    }

    /// Deals with all events of the connection, up to the first failure; says how many there
    /// were.
    fn drain_events(&mut self) -> (r: Result<usize, Status>)
        requires
            old(self).wf(),
        ensures
            final(self).wf(),
            exists|places: Seq<bool>| #[trigger]
                drains(
                    model::handled(old(self)@, old(self)@.conn.ingress.events.len(), places),
                    old(self)@.conn.ingress.events.len(),
                    final(self)@,
                    r,
                ),
            places::lent_headers(final(self)@.conn.ingress) == places::lent_headers(
                old(self)@.conn.ingress,
            ),
            r is Ok ==> final(self)@.conn.ingress.events.len() == 0
                && final(self)@.conn.ingress.input == old(self)@.conn.ingress.input,
    {
        let ghost before = self@;
        let ghost total = before.conn.ingress.events.len();
        let ghost mut places: Seq<bool> = Seq::empty();
        let all: usize = self.h2.event_count();
        let mut count: usize = 0;
        proof {
            assert forall|more: Seq<bool>|
                model::handled(before, total, places + more) == #[trigger] model::handled(
                    self@,
                    total,
                    more,
                ) by {
                assert(places + more =~= more);
            }
        }
        while count < all
            invariant
                self.wf(),
                before == old(self)@,
                total == before.conn.ingress.events.len(),
                count <= all,
                all == total,
                self@.conn.ingress.events.len() == total - count,
                self@.conn.ingress.input == before.conn.ingress.input,
                places::lent_headers(self@.conn.ingress) == places::lent_headers(before.conn.ingress),
                forall|more: Seq<bool>|
                    model::handled(before, total, places + more) == #[trigger] model::handled(
                        self@,
                        (total - count) as nat,
                        more,
                    ),
            decreases all - count,
        {
            let ghost at = self@;
            let event: Event = match self.h2.poll_event() {
                Some(event) => event,
                None => return Ok(count),
            };
            proof {
                places::law_places_come_back(at.conn.ingress);
            }
            let ghost seen = model::polled(at);
            assert(model::freed(self@, at.conn.ingress.events[0]) =~= seen);
            let taken = self.take_event(event);
            proof {
                let place = choose|place: bool|
                    step_is(
                        #[trigger] model::event_taken(seen, at.conn.ingress.events[0], place),
                        self@,
                        taken,
                    );
                let next = self@;
                assert forall|more: Seq<bool>|
                    (if taken is Ok {
                        model::handled(next, (total - count - 1) as nat, more)
                    } else {
                        (next, result_view(taken))
                    }) == #[trigger] model::handled(before, total, places.push(place) + more) by {
                    let longer = seq![place] + more;
                    assert(places.push(place) + more =~= places + longer);
                    assert(longer.drop_first() =~= more);
                    assert(longer[0] == place);
                    assert(model::handled(before, total, places + longer) == model::handled(
                        at,
                        (total - count) as nat,
                        longer,
                    ));
                }
                places = places.push(place);
                let none = Seq::<bool>::empty();
                assert(places + none =~= places);
                if taken is Err {
                    assert(model::handled(before, total, places + none) == (
                        next,
                        result_view(taken),
                    ));
                }
                assert forall|more: Seq<bool>| taken is Ok implies model::handled(
                    before,
                    total,
                    places + more,
                ) == #[trigger] model::handled(next, (total - count - 1) as nat, more) by {
                    assert(model::handled(before, total, places + more) == model::handled(
                        before,
                        total,
                        places + more,
                    ));
                }
            }
            match taken {
                Ok(_) => {},
                Err(status) => {
                    assert(drains(
                        model::handled(before, total, places),
                        total,
                        self@,
                        Err::<usize, Status>(status),
                    ));
                    return Err(status);
                },
            }
            count = count + 1;
        }
        proof {
            let none = Seq::<bool>::empty();
            assert(places + none =~= places);
            assert(model::handled(self@, (total - count) as nat, none) == (
                self@,
                Ok::<(), StatusView>(()),
            ));
            assert(model::handled(before, total, places + none) == (
                self@,
                Ok::<(), StatusView>(()),
            ));
            assert(self@.conn.ingress.events =~= Seq::<EventView>::empty());
            assert(drains(model::handled(before, total, places), total, self@, Ok(count)));
        }
        Ok(count)
    }

    /// Deals with events and sends what waits, for as long as the connection had to stop for
    /// want of room and gets on.
    fn drive(&mut self, first: Result<(), ConnError>) -> (r: Result<(), Status>)
        requires
            old(self).wf(),
        ensures
            final(self).wf(),
            places::lent_headers(final(self)@.conn.ingress) == places::lent_headers(
                old(self)@.conn.ingress,
            ),
            exists|rounds: Seq<Round>| #[trigger]
                drives(model::driven(old(self)@, first, rounds), final(self)@, r),
    {
        let ghost before = self@;
        let ghost mut rounds: Seq<Round> = Seq::empty();
        let mut result: Result<(), ConnError> = first;
        proof {
            assert forall|more: Seq<Round>|
                model::driven(before, first, rounds + more) == #[trigger] model::driven(
                    self@,
                    result,
                    more,
                ) by {
                assert(rounds + more =~= more);
            }
        }
        loop
            invariant
                self.wf(),
                before == old(self)@,
                places::lent_headers(self@.conn.ingress) == places::lent_headers(before.conn.ingress),
                forall|more: Seq<Round>|
                    model::driven(before, first, rounds + more) == #[trigger] model::driven(
                        self@,
                        result,
                        more,
                    ),
            decreases
                    self@.conn.ingress.input.bytes().len(),
                    self@.conn.ingress.events.len(),
        {
            let ghost at = self@;
            let ghost count = at.conn.ingress.events.len();
            let drained = self.drain_events();
            let ghost places = choose|places: Seq<bool>| #[trigger]
                drains(model::handled(at, count, places), count, self@, drained);
            let ghost quiet = Round { events: places, frames: Seq::empty() };
            proof {
                assert(model::driven(before, first, rounds + seq![quiet]) == model::driven(
                    at,
                    result,
                    seq![quiet],
                ));
                assert(seq![quiet][0] == quiet);
            }
            let n: usize = match drained {
                Ok(n) => n,
                Err(status) => {
                    assert(drives(
                        model::driven(before, first, rounds + seq![quiet]),
                        self@,
                        Err::<(), Status>(status),
                    ));
                    return Err(status);
                },
            };
            let ghost mid = self@;
            self.flush();
            let ghost after = self@;
            match result {
                Ok(_) => {
                    assert(drives(
                        model::driven(before, first, rounds + seq![quiet]),
                        self@,
                        Ok::<(), Status>(()),
                    ));
                    return Ok(());
                },
                Err(failure) => {
                    let again: bool = match failure {
                        ConnError::Overload => n != 0,
                        _ => false,
                    };
                    if !again {
                        let status = Status::from_conn_err(failure);
                        assert(drives(
                            model::driven(before, first, rounds + seq![quiet]),
                            self@,
                            Err::<(), Status>(status),
                        ));
                        return Err(status);
                    }
                    result = self.h2.resume();
                    proof {
                        role::lemma_client();
                        let frames = choose|frames: Seq<Chance>|
                            (self.h2@, result) == #[trigger] conn_model::resumed(
                                after.conn,
                                ClientRole::IS_SERVER,
                                frames,
                            );
                        let round = Round { events: places, frames };
                        progress::law_events_cost_input(after.conn, false, frames);
                        progress::law_no_place_is_lost(
                            after.conn,
                            false,
                            Seq::empty(),
                            frames,
                        );
                        let next = self@;
                        assert forall|more: Seq<Round>|
                            model::driven(before, first, rounds.push(round) + more)
                                == #[trigger] model::driven(next, result, more) by {
                            let longer = seq![round] + more;
                            assert(rounds.push(round) + more =~= rounds + longer);
                            assert(longer.drop_first() =~= more);
                            assert(longer[0] == round);
                            assert(model::driven(before, first, rounds + longer) == model::driven(
                                at,
                                Err::<(), ConnError>(failure),
                                longer,
                            ));
                            assert(next =~= ClientView { conn: self.h2@, ..after });
                        }
                        rounds = rounds.push(round);
                    }
                },
            }
        }
    }

    /// Sends what waits, as far as it goes.
    fn flush(&mut self)
        requires
            old(self).wf(),
        ensures
            final(self).wf(),
            ({
                let v = old(self)@;
                let (calls, conn) = model::flushed(v.calls, v.conn, v.calls.pending.len());
                final(self)@ == (ClientView { calls, conn, ..v })
            }),
            final(self)@.conn.ingress == old(self)@.conn.ingress,
    {
        proof {
            lemma_flushing_keeps_ingress(
                self@.calls,
                self@.conn,
                self@.calls.pending.len(),
            );
        }
        self.calls.drive(&mut self.h2);
    }

    /// Takes bytes from the peer, and deals with what they bring.
    pub fn ingest(&mut self, bytes: &[u8]) -> (r: Result<(), Status>)
        requires
            old(self).wf(),
        ensures
            final(self).wf(),
            places::lent_headers(final(self)@.conn.ingress) == places::lent_headers(
                old(self)@.conn.ingress,
            ),
            exists|chances: Seq<Chance>, rounds: Seq<Round>|
                #[trigger] went_on(
                    old(self)@,
                    conn_model::ingested(old(self)@.conn, false, bytes@, chances),
                    rounds,
                    final(self)@,
                    r,
                ),
    {
        proof {
            role::lemma_client();
        }
        let ghost before = self@;
        let result = self.h2.ingest(bytes);
        let ghost mid = self@;
        assert(mid =~= ClientView { conn: mid.conn, ..before });
        let r = self.drive(result);
        proof {
            let chances = choose|chances: Seq<Chance>|
                (mid.conn, result) == #[trigger] conn_model::ingested(before.conn, false, bytes@, chances);
            progress::law_no_place_is_lost(before.conn, false, bytes@, chances);
            let rounds = choose|rounds: Seq<Round>| #[trigger]
                drives(model::driven(mid, result, rounds), self@, r);
            assert(went_on(
                before,
                conn_model::ingested(before.conn, false, bytes@, chances),
                rounds,
                self@,
                r,
            ));
        }
        r
    }

    /// Goes on with what came in.
    pub fn resume(&mut self) -> (r: Result<(), Status>)
        requires
            old(self).wf(),
        ensures
            final(self).wf(),
            places::lent_headers(final(self)@.conn.ingress) == places::lent_headers(
                old(self)@.conn.ingress,
            ),
            exists|chances: Seq<Chance>, rounds: Seq<Round>|
                #[trigger] went_on(
                    old(self)@,
                    conn_model::resumed(old(self)@.conn, false, chances),
                    rounds,
                    final(self)@,
                    r,
                ),
    {
        proof {
            role::lemma_client();
        }
        let ghost before = self@;
        let result = self.h2.resume();
        let ghost mid = self@;
        assert(mid =~= ClientView { conn: mid.conn, ..before });
        let r = self.drive(result);
        proof {
            let chances = choose|chances: Seq<Chance>|
                (mid.conn, result) == #[trigger] conn_model::resumed(before.conn, false, chances);
            progress::law_no_place_is_lost(before.conn, false, Seq::empty(), chances);
            let rounds = choose|rounds: Seq<Round>| #[trigger]
                drives(model::driven(mid, result, rounds), self@, r);
            assert(went_on(
                before,
                conn_model::resumed(before.conn, false, chances),
                rounds,
                self@,
                r,
            ));
        }
        r
    }
}

impl Session {
    /// The first bytes that can be written, which lie in one piece.
    pub fn outbound(&self) -> (r: &[u8])
        requires
            self.wf(),
        ensures
            r@ == self@.conn.egress.bytes.subrange(0, self@.conn.egress.first_len() as int),
            r@.len() == self@.conn.egress.first_len(),
    {
        self.h2.outbound()
    }

    /// Bytes were written.
    pub fn drain_outbound(&mut self, n: usize)
        requires
            old(self).wf(),
        ensures
            final(self).wf(),
            final(self)@ == (ClientView {
                conn: ConnView {
                    egress: old(self)@.conn.egress.drained(n as int),
                    ..old(self)@.conn
                },
                ..old(self)@
            }),
    {
        self.h2.drain_outbound(n);
    }

    /// The next whole answer.
    pub fn poll_unary(&mut self) -> (r: Option<UnaryResult>)
        requires
            old(self).wf(),
        ensures
            final(self).wf(),
            match r {
                None => old(self)@.inbox.complete.len() == 0 && final(self)@ == old(self)@,
                Some(u) => old(self)@.inbox.complete.len() > 0 && u@ == old(
                    self,
                )@.inbox.complete[0] && final(self)@ == (ClientView {
                    inbox: InboxView {
                        complete: old(self)@.inbox.complete.drop_first(),
                        ..old(self)@.inbox
                    },
                    ..old(self)@
                }),
            },
    {
        self.ingress.poll_unary()
    }

    /// The next piece of an answer.
    pub fn poll_event(&mut self) -> (r: Option<StreamEvent>)
        requires
            old(self).wf(),
        ensures
            final(self).wf(),
            match r {
                None => old(self)@.inbox.events.len() == 0 && final(self)@ == old(self)@,
                Some(e) => old(self)@.inbox.events.len() > 0 && e@ == old(self)@.inbox.events[0]
                    && final(self)@ == (ClientView {
                    inbox: InboxView {
                        events: old(self)@.inbox.events.drop_first(),
                        ..old(self)@.inbox
                    },
                    ..old(self)@
                }),
            },
    {
        self.ingress.poll_event()
    }

    fn start_response_stream(
        &mut self,
        path: &[u8],
        authority: Option<&[u8]>,
        metadata: &Metadata,
        mode: ResponseMode,
    ) -> (r: Result<StreamId, Status>)
        requires
            old(self).wf(),
        ensures
            final(self).wf(),
            opened(
                model::started(
                    old(self)@.calls,
                    old(self)@.conn,
                    path@,
                    headers::value_view(authority),
                    metadata@,
                    mode,
                ),
                old(self)@,
                final(self)@,
                r,
            ),
    {
        let block: HeaderBlock = match HeaderBlock::for_request(path, authority, metadata) {
            Ok(block) => block,
            Err(status) => return Err(status),
        };
        let fields = block.as_h2();
        let stream_id: StreamId = match self.h2.start_request(fields.as_slice(), false) {
            Ok(stream_id) => stream_id,
            Err(failure) => return Err(Status::from_conn_err(failure)),
        };
        if !self.calls.insert(stream_id, mode) {
            let _ = self.h2.reset_stream(stream_id, ErrorCode::RefusedStream);
            return Err(Status::new(Code::ResourceExhausted, "too many in-flight streams"));
        }
        Ok(stream_id)
    }

    /// Opens a call whose answer is handed on piece by piece.
    pub fn start_stream_raw(
        &mut self,
        path: &[u8],
        authority: Option<&[u8]>,
        metadata: &Metadata,
    ) -> (r: Result<StreamId, Status>)
        requires
            old(self).wf(),
        ensures
            final(self).wf(),
            opened(
                model::started(
                    old(self)@.calls,
                    old(self)@.conn,
                    path@,
                    headers::value_view(authority),
                    metadata@,
                    ResponseMode::Streaming,
                ),
                old(self)@,
                final(self)@,
                r,
            ),
    {
        self.start_response_stream(path, authority, metadata, ResponseMode::Streaming)
    }

    /// Opens a call whose answer is handed on whole.
    pub fn start_client_stream_raw(
        &mut self,
        path: &[u8],
        authority: Option<&[u8]>,
        metadata: &Metadata,
    ) -> (r: Result<StreamId, Status>)
        requires
            old(self).wf(),
        ensures
            final(self).wf(),
            opened(
                model::started(
                    old(self)@.calls,
                    old(self)@.conn,
                    path@,
                    headers::value_view(authority),
                    metadata@,
                    ResponseMode::Unary,
                ),
                old(self)@,
                final(self)@,
                r,
            ),
    {
        self.start_response_stream(path, authority, metadata, ResponseMode::Unary)
    }

    /// Sends a message. Whether there is a place for one that has to wait, only the pool and
    /// the slab can say.
    pub fn send_message_raw(&mut self, stream_id: StreamId, payload: &[u8]) -> (r: Result<
        (),
        Status,
    >)
        requires
            old(self).wf(),
        ensures
            final(self).wf(),
            exists|place: bool|
                sent_on(
                    #[trigger] model::message_sent(
                        old(self)@.calls,
                        old(self)@.conn,
                        stream_id.value(),
                        payload@,
                        false,
                        place,
                    ),
                    old(self)@,
                    final(self)@,
                    r,
                ),
    {
        let ghost before = self@;
        let r = self.calls.send_message(&mut self.h2, stream_id, payload, false);
        proof {
            let place = choose|place: bool|
                sent(
                    #[trigger] model::message_sent(
                        before.calls,
                        before.conn,
                        stream_id.value(),
                        payload@,
                        false,
                        place,
                    ),
                    self@.calls,
                    self@.conn,
                    r,
                );
            assert(sent_on(
                model::message_sent(
                    before.calls,
                    before.conn,
                    stream_id.value(),
                    payload@,
                    false,
                    place,
                ),
                before,
                self@,
                r,
            ));
        }
        r
    }

    /// Says that no more messages follow.
    pub fn finish_send(&mut self, stream_id: StreamId) -> (r: Result<(), Status>)
        requires
            old(self).wf(),
        ensures
            final(self).wf(),
            sent_on(
                model::finished(old(self)@.calls, old(self)@.conn, stream_id.value()),
                old(self)@,
                final(self)@,
                r,
            ),
    {
        self.calls.finish_send(&mut self.h2, stream_id)
    }

    /// Opens a call with its one message.
    pub fn start_unary_raw(
        &mut self,
        path: &[u8],
        authority: Option<&[u8]>,
        metadata: &Metadata,
        payload: &[u8],
    ) -> (r: Result<StreamId, Status>)
        requires
            old(self).wf(),
        ensures
            final(self).wf(),
            exists|place: bool|
                opened(
                    #[trigger] model::unary_started(
                        old(self)@.calls,
                        old(self)@.conn,
                        path@,
                        headers::value_view(authority),
                        metadata@,
                        payload@,
                        place,
                    ),
                    old(self)@,
                    final(self)@,
                    r,
                ),
    {
        let ghost before = self@;
        let ghost named = headers::value_view(authority);
        proof {
            let _ = model::unary_started(
                before.calls,
                before.conn,
                path@,
                named,
                metadata@,
                payload@,
                false,
            );
        }
        let stream_id: StreamId = match self.start_response_stream(
            path,
            authority,
            metadata,
            ResponseMode::Unary,
        ) {
            Ok(stream_id) => stream_id,
            Err(status) => return Err(status),
        };
        let ghost mid = self@;
        let done = self.calls.send_message(&mut self.h2, stream_id, payload, true);
        proof {
            let place = choose|place: bool|
                sent(
                    #[trigger] model::message_sent(
                        mid.calls,
                        mid.conn,
                        stream_id.value(),
                        payload@,
                        true,
                        place,
                    ),
                    self@.calls,
                    self@.conn,
                    done,
                );
            let _ = model::unary_started(
                before.calls,
                before.conn,
                path@,
                named,
                metadata@,
                payload@,
                place,
            );
        }
        match done {
            Ok(_) => Ok(stream_id),
            Err(status) => {
                self.calls.abort(&mut self.h2, stream_id);
                Err(status)
            },
        }
    }

    /// Opens a call with all its messages.
    pub fn start_streaming_raw(
        &mut self,
        path: &[u8],
        authority: Option<&[u8]>,
        metadata: &Metadata,
        payloads: &[&[u8]],
    ) -> (r: Result<StreamId, Status>)
        requires
            old(self).wf(),
        ensures
            final(self).wf(),
            exists|places: Seq<bool>|
                opened(
                    #[trigger] model::streaming_started(
                        old(self)@.calls,
                        old(self)@.conn,
                        path@,
                        headers::value_view(authority),
                        metadata@,
                        payload_views(payloads@),
                        places,
                    ),
                    old(self)@,
                    final(self)@,
                    r,
                ),
    {
        let ghost before = self@;
        let ghost named = headers::value_view(authority);
        let ghost list = payload_views(payloads@);
        proof {
            let _ = model::streaming_started(
                before.calls,
                before.conn,
                path@,
                named,
                metadata@,
                list,
                Seq::empty(),
            );
        }
        let stream_id: StreamId = match self.start_stream_raw(path, authority, metadata) {
            Ok(stream_id) => stream_id,
            Err(status) => return Err(status),
        };
        if payloads.len() == 0 {
            match self.finish_send(stream_id) {
                Ok(_) => {},
                Err(status) => {
                    self.calls.abort(&mut self.h2, stream_id);
                    return Err(status);
                },
            }
            return Ok(stream_id);
        }
        let ghost mid = self@;
        let ghost id = stream_id.value();
        let ghost mut places: Seq<bool> = Seq::empty();
        let mut i: usize = 0;
        proof {
            assert(list.skip(0) =~= list);
            assert forall|more: Seq<bool>|
                model::all_sent(mid.calls, mid.conn, id, list, places + more)
                    == #[trigger] model::all_sent(self@.calls, self@.conn, id, list.skip(0), more) by {
                assert(places + more =~= more);
            }
        }
        while i < payloads.len()
            invariant
                self.wf(),
                before == old(self)@,
                list == payload_views(payloads@),
                id == stream_id.value(),
                i <= payloads@.len(),
                payloads@.len() > 0,
                self@.inbox == before.inbox,
                named == headers::value_view(authority),
                model::started(
                    before.calls,
                    before.conn,
                    path@,
                    named,
                    metadata@,
                    ResponseMode::Streaming,
                ) == (mid.calls, mid.conn, Ok::<u32, StatusView>(id)),
                forall|more: Seq<bool>|
                    model::all_sent(mid.calls, mid.conn, id, list, places + more)
                        == #[trigger] model::all_sent(
                        self@.calls,
                        self@.conn,
                        id,
                        list.skip(i as int),
                        more,
                    ),
            decreases payloads@.len() - i,
        {
            let ghost at = self@;
            let payload: &[u8] = payloads[i];
            let last: bool = i + 1 == payloads.len();
            let done = self.calls.send_message(&mut self.h2, stream_id, payload, last);
            let ghost next = self@;
            let ghost place = choose|place: bool|
                sent(
                    #[trigger] model::message_sent(
                        at.calls,
                        at.conn,
                        id,
                        payload@,
                        last,
                        place,
                    ),
                    next.calls,
                    next.conn,
                    done,
                );
            proof {
                assert(list.skip(i as int)[0] == payload@);
                assert(list.skip(i as int).drop_first() =~= list.skip(i + 1));
                assert forall|more: Seq<bool>|
                    model::all_sent(mid.calls, mid.conn, id, list, places.push(place) + more)
                        == #[trigger] model::all_sent(
                        at.calls,
                        at.conn,
                        id,
                        list.skip(i as int),
                        seq![place] + more,
                    ) by {
                    assert(places.push(place) + more =~= places + (seq![place] + more));
                }
            }
            match done {
                Ok(_) => {
                    proof {
                        assert forall|more: Seq<bool>|
                            model::all_sent(
                                mid.calls,
                                mid.conn,
                                id,
                                list,
                                places.push(place) + more,
                            ) == #[trigger] model::all_sent(
                                next.calls,
                                next.conn,
                                id,
                                list.skip(i + 1),
                                more,
                            ) by {
                            assert((seq![place] + more).drop_first() =~= more);
                            assert((seq![place] + more)[0] == place);
                            assert(model::all_sent(
                                at.calls,
                                at.conn,
                                id,
                                list.skip(i as int),
                                seq![place] + more,
                            ) == model::all_sent(
                                next.calls,
                                next.conn,
                                id,
                                list.skip(i + 1),
                                more,
                            ));
                        }
                        places = places.push(place);
                    }
                },
                Err(status) => {
                    self.calls.abort(&mut self.h2, stream_id);
                    proof {
                        let none = Seq::<bool>::empty();
                        assert((seq![place] + none)[0] == place);
                        assert(model::all_sent(
                            at.calls,
                            at.conn,
                            id,
                            list.skip(i as int),
                            seq![place] + none,
                        ) == model::all_sent(
                            mid.calls,
                            mid.conn,
                            id,
                            list,
                            places.push(place) + none,
                        ));
                        let _ = model::streaming_started(
                            before.calls,
                            before.conn,
                            path@,
                            named,
                            metadata@,
                            list,
                            places.push(place) + none,
                        );
                    }
                    return Err(status);
                },
            }
            i = i + 1;
        }
        proof {
            let none = Seq::<bool>::empty();
            assert(model::all_sent(self@.calls, self@.conn, id, list.skip(i as int), none)
                == model::all_sent(mid.calls, mid.conn, id, list, places + none));
            let _ = model::streaming_started(
                before.calls,
                before.conn,
                path@,
                named,
                metadata@,
                list,
                places + none,
            );
        }
        Ok(stream_id)
    }
}

/// What a client may hold.
#[derive(Copy, Clone, Debug, PartialEq, Eq, Structural)]
pub struct Config {
    pub max_in_flight: usize,
    pub max_completed: usize,
    pub max_events: usize,
    pub max_pending_msgs: usize,
    pub max_pending_len: usize,
    pub max_message_len: usize,
    pub max_buffered_len: usize,
    pub max_buffered_msgs: usize,
}

/// The configuration that nothing was said about.
pub open spec fn default_config() -> Config {
    Config {
        max_in_flight: 256,
        max_completed: 256,
        max_events: 8192,
        max_pending_msgs: 4,
        max_pending_len: 4_194_309,
        max_message_len: 4_194_304,
        max_buffered_len: 16_777_216,
        max_buffered_msgs: 8192,
    }
}

impl Default for Config {
    fn default() -> (r: Self)
        ensures
            r == default_config(),
    {
        Config {
            max_in_flight: 256,
            max_completed: 256,
            max_events: 8192,
            max_pending_msgs: 4,
            max_pending_len: 4_194_309,
            max_message_len: 4_194_304,
            max_buffered_len: 16_777_216,
            max_buffered_msgs: 8192,
        }
    }
}

/// How the connection of a client is configured.
pub open spec fn connection_config(c: Config) -> h2_config::Config {
    h2_config::Config { stream_capacity: c.max_in_flight, ..h2_config::default_config() }
}

/// A length, or one where it is none.
pub open spec fn at_least_one(n: usize) -> usize {
    if n == 0 {
        1
    } else {
        n
    }
}

/// Whether a client can be made: there is room for a call and for a message that waits, and
/// memory can address the rest.
pub open spec fn is_good(c: Config) -> bool {
    &&& 0 < c.max_in_flight <= u32::MAX
    &&& 0 < c.max_pending_msgs < u32::MAX
    &&& 0 < c.max_pending_len
    &&& c.max_completed <= u32::MAX
    &&& c.max_events <= u32::MAX
    &&& collections::pool_fault(c.max_pending_msgs, c.max_pending_len) is None
    &&& collections::pool_fault(c.max_pending_msgs, at_least_one(c.max_message_len)) is None
    &&& h2_config::validated(connection_config(c), false, true) is Ok
}

/// A client on a connection on which nothing has happened.
pub open spec fn initial(c: Config) -> ClientView {
    ClientView {
        conn: conn_model::initial(
            h2_config::validated(connection_config(c), false, true)->Ok_0,
            true,
            1,
        ),
        calls: model::CallsView {
            calls: Map::empty(),
            capacity: c.max_in_flight as nat,
            pending: Seq::empty(),
            pending_capacity: c.max_in_flight as nat,
            room: collections::Room { held: 0, limit: c.max_pending_msgs as nat, spent: 0 },
            max_message: c.max_message_len,
            max_pending: c.max_pending_len,
        },
        inbox: InboxView {
            complete: Seq::empty(),
            complete_capacity: c.max_completed as nat,
            events: Seq::empty(),
            event_capacity: c.max_events as nat,
            max_len: c.max_buffered_len,
            max_msgs: c.max_buffered_msgs,
            fragments: collections::Supply { limit: c.max_pending_msgs as nat, out: 0 },
        },
    }
}

impl Session {
    pub fn new() -> (r: Self)
        ensures
            r.wf(),
            r@ == initial(default_config()),
    {
        let config = Config::default();
        // Memory can address pools of the usual sizes.
        let _ = ValidatedConfig::<ClientRole>::default();
        let _ = PoolPlan::new(config.max_pending_msgs, config.max_pending_len);
        let _ = PoolPlan::new(config.max_pending_msgs, config.max_message_len);
        proof {
            role::lemma_client();
        }
        Session::with_config(config)
    }

    /// A client within limits that are good.
    pub fn with_config(config: Config) -> (r: Self)
        requires
            is_good(config),
        ensures
            r.wf(),
            r@ == initial(config),
    {
        Session::checked(config).unwrap()
    }

    /// A client within limits, if they are good.
    pub fn checked(config: Config) -> (r: Option<Self>)
        ensures
            r is Some <==> is_good(config),
            r matches Some(session) ==> session.wf() && session@ == initial(config),
    {
        proof {
            role::lemma_client();
        }
        if config.max_in_flight == 0 || config.max_in_flight > 0xffff_ffff {
            return None;
        }
        if config.max_pending_msgs == 0 || config.max_pending_msgs >= 0xffff_ffff
            || config.max_pending_len == 0 {
            return None;
        }
        if config.max_completed > 0xffff_ffff || config.max_events > 0xffff_ffff {
            return None;
        }
        let message_len: usize = if config.max_message_len == 0 {
            1
        } else {
            config.max_message_len
        };
        let requests: PoolPlan = match PoolPlan::new(
            config.max_pending_msgs,
            config.max_pending_len,
        ) {
            Ok(plan) => plan,
            Err(_) => return None,
        };
        let messages: PoolPlan = match PoolPlan::new(config.max_pending_msgs, message_len) {
            Ok(plan) => plan,
            Err(_) => return None,
        };
        let mut connection: h2_config::Config = h2_config::Config::default();
        connection.stream_capacity = config.max_in_flight;
        let h2: Conn<ClientRole> = match Conn::with_config(connection) {
            Ok(h2) => h2,
            Err(_) => return None,
        };
        let calls: CallStore = CallStore::new(
            config.max_in_flight,
            config.max_pending_msgs,
            &requests,
            config.max_pending_len,
            config.max_message_len,
        );
        let ingress: Ingress = Ingress::new(
            messages.pool_up_to(config.max_pending_msgs),
            config.max_completed,
            config.max_events,
            config.max_buffered_len,
            config.max_buffered_msgs,
        );
        Some(Session { h2, calls, ingress, encode_buf: Vec::new() })
    }
}

impl Default for Session {
    fn default() -> (r: Self)
        ensures
            r.wf(),
            r@ == initial(default_config()),
    {
        Session::new()
    }
}

impl Session {
    /// Writes a message into the buffer for messages.
    fn encode<C: Codec>(&mut self, codec: &mut C, message: &C::Encode) -> (r: Result<
        Vec<u8>,
        Status,
    >)
        requires
            old(self).wf(),
        ensures
            final(self).wf(),
            final(self)@ == old(self)@,
            crate::grpc::codec::encodes_one::<C>(
                *old(codec),
                *message,
                *final(codec),
                crate::grpc::codec::given_view(r),
            ),
    {
        let ghost before = *codec;
        let mut payload: Vec<u8> = Vec::new();
        std::mem::swap(&mut payload, &mut self.encode_buf);
        payload.clear();
        assert(payload@ =~= Seq::<u8>::empty());
        let done = codec.encode(message, &mut payload);
        assert(C::encoded(before, *message, Seq::empty(), *codec, payload@, done));
        match done {
            Ok(_) => Ok(payload),
            Err(status) => {
                self.encode_buf = payload;
                Err(status)
            },
        }
    }

    /// Opens a call with its one message.
    pub fn start_unary<C: Codec>(
        &mut self,
        path: &[u8],
        authority: Option<&[u8]>,
        metadata: &Metadata,
        codec: &mut C,
        message: &C::Encode,
    ) -> (r: Result<StreamId, Status>)
        requires
            old(self).wf(),
        ensures
            final(self).wf(),
            exists|given: Result<Seq<u8>, StatusView>, place: bool| #[trigger]
                unary_typed(
                    old(self)@,
                    path@,
                    headers::value_view(authority),
                    metadata@,
                    given,
                    place,
                    final(self)@,
                    r,
                ) && crate::grpc::codec::encodes_one::<C>(*old(codec), *message, *final(codec), given),
    {
        let ghost before = self@;
        let ghost named = headers::value_view(authority);
        match self.encode(codec, message) {
            Err(status) => {
                assert(unary_typed(
                    before,
                    path@,
                    named,
                    metadata@,
                    Err(status@),
                    false,
                    self@,
                    Err::<StreamId, Status>(status),
                ));
                Err(status)
            },
            Ok(payload) => {
                let r = self.start_unary_raw(path, authority, metadata, payload.as_slice());
                proof {
                    let place = choose|place: bool|
                        opened(
                            #[trigger] model::unary_started(
                                before.calls,
                                before.conn,
                                path@,
                                named,
                                metadata@,
                                payload@,
                                place,
                            ),
                            before,
                            self@,
                            r,
                        );
                    assert(unary_typed(
                        before,
                        path@,
                        named,
                        metadata@,
                        Ok(payload@),
                        place,
                        self@,
                        r,
                    ));
                }
                self.encode_buf = payload;
                r
            },
        }
    }

    /// Sends a message.
    pub fn send_message<C: Codec>(
        &mut self,
        stream_id: StreamId,
        codec: &mut C,
        message: &C::Encode,
    ) -> (r: Result<(), Status>)
        requires
            old(self).wf(),
        ensures
            final(self).wf(),
            exists|given: Result<Seq<u8>, StatusView>, place: bool| #[trigger]
                message_typed(
                    old(self)@,
                    stream_id.value(),
                    given,
                    place,
                    final(self)@,
                    r,
                ) && crate::grpc::codec::encodes_one::<C>(*old(codec), *message, *final(codec), given),
    {
        let ghost before = self@;
        match self.encode(codec, message) {
            Err(status) => {
                assert(message_typed(
                    before,
                    stream_id.value(),
                    Err(status@),
                    false,
                    self@,
                    Err::<(), Status>(status),
                ));
                Err(status)
            },
            Ok(payload) => {
                let r = self.send_message_raw(stream_id, payload.as_slice());
                proof {
                    let place = choose|place: bool|
                        sent_on(
                            #[trigger] model::message_sent(
                                before.calls,
                                before.conn,
                                stream_id.value(),
                                payload@,
                                false,
                                place,
                            ),
                            before,
                            self@,
                            r,
                        );
                    assert(message_typed(
                        before,
                        stream_id.value(),
                        Ok(payload@),
                        place,
                        self@,
                        r,
                    ));
                }
                self.encode_buf = payload;
                r
            },
        }
    }

    /// Opens a call with all its messages.
    pub fn start_streaming<C: Codec>(
        &mut self,
        path: &[u8],
        authority: Option<&[u8]>,
        metadata: &Metadata,
        codec: &mut C,
        messages: &[C::Encode],
    ) -> (r: Result<StreamId, Status>)
        requires
            old(self).wf(),
        ensures
            final(self).wf(),
            exists|
                codecs: Seq<C>,
                given: Seq<Result<Seq<u8>, StatusView>>,
                places: Seq<bool>,
            |
                opened(
                    #[trigger] model::typed_started(
                        old(self)@.calls,
                        old(self)@.conn,
                        path@,
                        headers::value_view(authority),
                        metadata@,
                        given,
                        messages@.len(),
                        places,
                    ),
                    old(self)@,
                    final(self)@,
                    r,
                ) && #[trigger] crate::grpc::codec::encodes::<C>(codecs, messages@, given) && codecs[0] == *old(codec)
                    && codecs.last() == *final(codec) && (r is Ok ==> given.len()
                    == messages@.len()) && model::typed_needed(
                    old(self)@.calls,
                    old(self)@.conn,
                    path@,
                    headers::value_view(authority),
                    metadata@,
                    given,
                    messages@.len(),
                    places,
                ),
    {
        let ghost before = self@;
        let ghost named = headers::value_view(authority);
        let ghost start = *codec;
        let ghost mut codecs: Seq<C> = seq![*codec];
        let ghost mut given: Seq<Result<Seq<u8>, StatusView>> = Seq::empty();
        let ghost mut places: Seq<bool> = Seq::empty();
        proof {
            assert(crate::grpc::codec::encodes::<C>(codecs, messages@, given));
            let _ = model::typed_started(
                before.calls,
                before.conn,
                path@,
                named,
                metadata@,
                given,
                messages@.len(),
                places,
            );
        }
        let stream_id: StreamId = match self.start_stream_raw(path, authority, metadata) {
            Ok(stream_id) => stream_id,
            Err(status) => return Err(status),
        };
        let ghost mid = self@;
        let ghost id = stream_id.value();
        let ghost total = messages@.len();
        let mut i: usize = 0;
        proof {
            assert forall|
                rest: Seq<Result<Seq<u8>, StatusView>>,
                more: Seq<bool>,
            |
                model::typed_sent(mid.calls, mid.conn, id, given + rest, total, places + more)
                    == #[trigger] model::typed_sent(
                    self@.calls,
                    self@.conn,
                    id,
                    rest,
                    (total - i) as nat,
                    more,
                ) by {
                assert(given + rest =~= rest);
                assert(places + more =~= more);
            }
        }
        while i < messages.len()
            invariant
                self.wf(),
                before == old(self)@,
                start == *old(codec),
                id == stream_id.value(),
                total == messages@.len(),
                i <= total,
                given.len() == i,
                self@.inbox == before.inbox,
                named == headers::value_view(authority),
                codecs[0] == start,
                codecs.last() == *codec,
                crate::grpc::codec::encodes::<C>(codecs, messages@, given),
                model::started(
                    before.calls,
                    before.conn,
                    path@,
                    named,
                    metadata@,
                    ResponseMode::Streaming,
                ) == (mid.calls, mid.conn, Ok::<u32, StatusView>(id)),
                i == 0 ==> self@ == mid,
                given.len() > 0 ==> model::typed_sent(
                    mid.calls,
                    mid.conn,
                    id,
                    given.drop_last(),
                    total,
                    places,
                ).2 is Ok,
                forall|rest: Seq<Result<Seq<u8>, StatusView>>, more: Seq<bool>|
                    model::typed_sent(mid.calls, mid.conn, id, given + rest, total, places + more)
                        == #[trigger] model::typed_sent(
                        self@.calls,
                        self@.conn,
                        id,
                        rest,
                        (total - i) as nat,
                        more,
                    ),
            decreases total - i,
        {
            let ghost at = self@;
            let ghost held = *codec;
            proof {
                let none = Seq::<Result<Seq<u8>, StatusView>>::empty();
                assert forall|x: bool| #[trigger]
                    model::typed_sent(
                        mid.calls,
                        mid.conn,
                        id,
                        given,
                        total,
                        places.push(x),
                    ).2 is Ok by {
                    assert(given + none =~= given);
                    assert(places + seq![x] =~= places.push(x));
                    assert(model::typed_sent(
                        at.calls,
                        at.conn,
                        id,
                        none,
                        (total - i) as nat,
                        seq![x],
                    ).2 is Ok);
                }
            }
            let coded = self.encode(codec, &messages[i]);
            let ghost gave = crate::grpc::codec::given_view(coded);
            let ghost longer = given.push(gave);
            proof {
                let next = codecs.push(*codec);
                assert forall|k: int| 0 <= k < longer.len() implies #[trigger] crate::grpc::codec::encodes_one::<C>(
                    next[k],
                    messages@[k],
                    next[k + 1],
                    longer[k],
                ) by {
                    if k < i {
                        assert(crate::grpc::codec::encodes_one::<C>(
                            codecs[k],
                            messages@[k],
                            codecs[k + 1],
                            given[k],
                        ));
                    } else {
                        assert(next[k] == held);
                    }
                }
                codecs = next;
                assert(crate::grpc::codec::encodes::<C>(codecs, messages@, longer));
                assert(longer.drop_last() =~= given);
            }
            let payload: Vec<u8> = match coded {
                Ok(payload) => payload,
                Err(status) => {
                    self.calls.abort(&mut self.h2, stream_id);
                    proof {
                        let untouched = (at.calls, at.conn, Ok::<(), StatusView>(()));
                        lemma_typed_step(
                            mid,
                            id,
                            given,
                            places,
                            at,
                            gave,
                            false,
                            total,
                            untouched,
                        );
                        let _ = model::typed_started(
                            before.calls,
                            before.conn,
                            path@,
                            named,
                            metadata@,
                            longer,
                            total,
                            places.push(false),
                        );
                    }
                    return Err(status);
                },
            };
            let last: bool = i + 1 == messages.len();
            let done = self.calls.send_message(
                &mut self.h2,
                stream_id,
                payload.as_slice(),
                last,
            );
            let ghost next = self@;
            let ghost place = choose|place: bool|
                sent(
                    #[trigger] model::message_sent(
                        at.calls,
                        at.conn,
                        id,
                        payload@,
                        last,
                        place,
                    ),
                    next.calls,
                    next.conn,
                    done,
                );
            proof {
                let s = (next.calls, next.conn, result_view(done));
                lemma_typed_step(mid, id, given, places, at, gave, place, total, s);
            }
            self.encode_buf = payload;
            match done {
                Ok(_) => {},
                Err(status) => {
                    self.calls.abort(&mut self.h2, stream_id);
                    proof {
                        let _ = model::typed_started(
                            before.calls,
                            before.conn,
                            path@,
                            named,
                            metadata@,
                            longer,
                            total,
                            places.push(place),
                        );
                    }
                    return Err(status);
                },
            }
            proof {
                let longer_places = places.push(place);
                assert forall|rest: Seq<Result<Seq<u8>, StatusView>>, more: Seq<bool>|
                    model::typed_sent(
                        mid.calls,
                        mid.conn,
                        id,
                        longer + rest,
                        total,
                        longer_places + more,
                    ) == #[trigger] model::typed_sent(
                        next.calls,
                        next.conn,
                        id,
                        rest,
                        (total - (i + 1)) as nat,
                        more,
                    ) by {
                    assert((total - (i + 1)) as nat == (total - given.len() - 1) as nat);
                    assert(model::typed_sent(
                        next.calls,
                        next.conn,
                        id,
                        rest,
                        (total - given.len() - 1) as nat,
                        more,
                    ) == model::typed_sent(
                        mid.calls,
                        mid.conn,
                        id,
                        given.push(gave) + rest,
                        total,
                        places.push(place) + more,
                    ));
                }
                given = longer;
                places = longer_places;
            }
            i = i + 1;
        }
        if messages.len() == 0 {
            match self.finish_send(stream_id) {
                Ok(_) => {},
                Err(status) => {
                    self.calls.abort(&mut self.h2, stream_id);
                    proof {
                        let _ = model::typed_started(
                            before.calls,
                            before.conn,
                            path@,
                            named,
                            metadata@,
                            given,
                            total,
                            places,
                        );
                    }
                    return Err(status);
                },
            }
        }
        proof {
            let none = Seq::<Result<Seq<u8>, StatusView>>::empty();
            let nothing = Seq::<bool>::empty();
            assert(given + none =~= given);
            assert(places + nothing =~= places);
            if total > 0 {
                let end = (total - i) as nat;
                assert(model::typed_sent(self@.calls, self@.conn, id, none, end, nothing)
                    == model::typed_sent(
                    mid.calls,
                    mid.conn,
                    id,
                    given + none,
                    total,
                    places + nothing,
                ));
            }
            let _ = model::typed_started(
                before.calls,
                before.conn,
                path@,
                named,
                metadata@,
                given,
                total,
                places,
            );
        }
        Ok(stream_id)
    }
}

/// One more message of those that a codec writes.
proof fn lemma_typed_step(
    mid: ClientView,
    id: u32,
    given: Seq<Result<Seq<u8>, StatusView>>,
    places: Seq<bool>,
    at: ClientView,
    gave: Result<Seq<u8>, StatusView>,
    place: bool,
    total: nat,
    s: model::Sent,
)
    requires
        given.len() < total,
        forall|rest: Seq<Result<Seq<u8>, StatusView>>, more: Seq<bool>|
            model::typed_sent(mid.calls, mid.conn, id, given + rest, total, places + more)
                == #[trigger] model::typed_sent(
                at.calls,
                at.conn,
                id,
                rest,
                (total - given.len()) as nat,
                more,
            ),
        gave is Ok ==> s == model::message_sent(
            at.calls,
            at.conn,
            id,
            gave->Ok_0,
            total - given.len() == 1,
            place,
        ),
    ensures
        ({
            let got = model::typed_sent(
                mid.calls,
                mid.conn,
                id,
                given.push(gave),
                total,
                places.push(place),
            );
            match gave {
                Err(failure) => {
                    let (gone, end) = model::aborted(at.calls, at.conn, id);
                    got == (gone, end, Err::<u32, StatusView>(failure))
                },
                Ok(_) => match s.2 {
                    Err(failure) => {
                        let (gone, end) = model::aborted(s.0, s.1, id);
                        got == (gone, end, Err::<u32, StatusView>(failure))
                    },
                    Ok(_) => got == (s.0, s.1, Ok::<u32, StatusView>(id)),
                },
            }
        }),
        forall|rest: Seq<Result<Seq<u8>, StatusView>>, more: Seq<bool>|
            gave is Ok && s.2 is Ok ==> model::typed_sent(
                mid.calls,
                mid.conn,
                id,
                given.push(gave) + rest,
                total,
                places.push(place) + more,
            ) == #[trigger] model::typed_sent(
                s.0,
                s.1,
                id,
                rest,
                (total - given.len() - 1) as nat,
                more,
            ),
{
    reveal_with_fuel(model::typed_sent, 2);
    let one = seq![gave];
    let answer = seq![place];
    assert(given.push(gave) =~= given + one);
    assert(places.push(place) =~= places + answer);
    assert(one.drop_first() =~= Seq::<Result<Seq<u8>, StatusView>>::empty());
    assert(model::typed_sent(mid.calls, mid.conn, id, given + one, total, places + answer)
        == model::typed_sent(
        at.calls,
        at.conn,
        id,
        one,
        (total - given.len()) as nat,
        answer,
    ));
    assert forall|rest: Seq<Result<Seq<u8>, StatusView>>, more: Seq<bool>|
        gave is Ok && s.2 is Ok implies model::typed_sent(
        mid.calls,
        mid.conn,
        id,
        given.push(gave) + rest,
        total,
        places.push(place) + more,
    ) == #[trigger] model::typed_sent(
        s.0,
        s.1,
        id,
        rest,
        (total - given.len() - 1) as nat,
        more,
    ) by {
        assert(given.push(gave) + rest =~= given + (one + rest));
        assert(places.push(place) + more =~= places + (answer + more));
        assert((one + rest).drop_first() =~= rest);
        assert((answer + more).drop_first() =~= more);
        assert((one + rest)[0] == gave);
        assert((answer + more)[0] == place);
        assert(model::typed_sent(
            mid.calls,
            mid.conn,
            id,
            given + (one + rest),
            total,
            places + (answer + more),
        ) == model::typed_sent(
            at.calls,
            at.conn,
            id,
            one + rest,
            (total - given.len()) as nat,
            answer + more,
        ));
    }
}

/// Whether opening a call with a message of a codec came out as stated.
pub open spec fn unary_typed(
    before: ClientView,
    path: Seq<u8>,
    authority: Option<Seq<u8>>,
    metadata: Seq<hpack::FieldView>,
    given: Result<Seq<u8>, StatusView>,
    place: bool,
    after: ClientView,
    r: Result<StreamId, Status>,
) -> bool {
    match given {
        Err(failure) => after == before && (r matches Err(status) && status@ == failure),
        Ok(payload) => opened(
            model::unary_started(
                before.calls,
                before.conn,
                path,
                authority,
                metadata,
                payload,
                place,
            ),
            before,
            after,
            r,
        ),
    }
}

/// Whether sending a message of a codec came out as stated.
pub open spec fn message_typed(
    before: ClientView,
    id: u32,
    given: Result<Seq<u8>, StatusView>,
    place: bool,
    after: ClientView,
    r: Result<(), Status>,
) -> bool {
    match given {
        Err(failure) => after == before && result_view(r) == Err::<(), StatusView>(failure),
        Ok(payload) => sent_on(
            model::message_sent(before.calls, before.conn, id, payload, false, place),
            before,
            after,
            r,
        ),
    }
}

pub open spec fn payload_views(list: Seq<&[u8]>) -> Seq<Seq<u8>> {
    list.map_values(|p: &[u8]| p@)
}

/// Whether opening a call came out as stated.
pub open spec fn opened(
    want: (model::CallsView, ConnView, Result<u32, StatusView>),
    before: ClientView,
    after: ClientView,
    r: Result<StreamId, Status>,
) -> bool {
    &&& after == (ClientView { calls: want.0, conn: want.1, ..before })
    &&& match r {
        Ok(id) => want.2 == Ok::<u32, StatusView>(id.value()),
        Err(status) => want.2 == Err::<u32, StatusView>(status@),
    }
}

/// Whether sending on a connection came out as stated.
pub open spec fn sent_on(
    want: model::Sent,
    before: ClientView,
    after: ClientView,
    r: Result<(), Status>,
) -> bool {
    &&& after == (ClientView { calls: want.0, conn: want.1, ..before })
    &&& want.2 == result_view(r)
}

/// Whether dealing with events came out as stated.
pub open spec fn drains(
    want: model::Step,
    count: nat,
    after: ClientView,
    r: Result<usize, Status>,
) -> bool {
    &&& want.0 == after
    &&& match r {
        Ok(n) => want.1 is Ok && n == count,
        Err(status) => want.1 == Err::<(), StatusView>(status@),
    }
}

/// Whether going round came out as stated.
pub open spec fn drives(
    want: Option<model::Step>,
    after: ClientView,
    r: Result<(), Status>,
) -> bool {
    want matches Some(step) && step_is(step, after, r)
}

/// Whether going on after the connection has dealt with its input came out as stated.
pub open spec fn went_on(
    before: ClientView,
    o: conn_model::Outcome,
    rounds: Seq<Round>,
    after: ClientView,
    r: Result<(), Status>,
) -> bool {
    drives(model::driven(ClientView { conn: o.0, ..before }, o.1, rounds), after, r)
}

proof fn lemma_driving_keeps_ingress(c: ConnView, id: u32, requests: Seq<model::PendingView>)
    ensures
        model::call_driven(c, id, requests).0.ingress == c.ingress,
    decreases requests.len(),
{
    if requests.len() > 0 {
        lemma_request_keeps_ingress(c, id, requests[0]);
        lemma_driving_keeps_ingress(
            model::request_driven(c, id, requests[0]).0,
            id,
            requests.drop_first(),
        );
    }
}

proof fn lemma_request_keeps_ingress(c: ConnView, id: u32, p: model::PendingView)
    ensures
        model::request_driven(c, id, p).0.ingress == c.ingress,
    decreases p.bytes.len() - p.pos,
{
    if p.pos < p.bytes.len() {
        let rest = p.bytes.skip(p.pos as int);
        conn_model::lemma_sending_keeps_ingress(c, id);
        let (next, result) = conn_model::data_sent(c, id, rest, p.end_stream);
        if let Ok(n) = result {
            if n != 0 && n <= rest.len() {
                lemma_request_keeps_ingress(
                    next,
                    id,
                    model::PendingView { pos: (p.pos + n) as nat, ..p },
                );
            }
        }
    }
}

pub proof fn lemma_flushing_keeps_ingress(v: model::CallsView, c: ConnView, n: nat)
    ensures
        model::flushed(v, c, n).1.ingress == c.ingress,
    decreases n,
{
    if n > 0 && v.pending.len() > 0 {
        let id = v.pending[0];
        lemma_driving_keeps_ingress(c, id, v.calls[id].requests);
        let (next, conn) = model::turn(v, c);
        lemma_flushing_keeps_ingress(next, conn, (n - 1) as nat);
    }
}

} // verus!
