//! What waits for the owner of a client.

use super::model;
use super::model::{InboxView, PieceView, ResponseMode, UnaryView};
use crate::collections::{Permit, Pool, Queue};
use crate::grpc::client::call::{message_view, result_view};
use crate::grpc::codec::Codec;
use crate::grpc::frame::{MessageFrame, Payload};
use crate::grpc::metadata::Metadata;
use crate::grpc::status::{Code, Status, StatusView};
use crate::h2::stream::StreamId;
use vstd::prelude::*;

verus! {

/// The answer to a call, whole.
pub struct UnaryResult {
    pub stream_id: StreamId,
    pub metadata: Metadata,
    pub message: Option<MessageFrame>,
    pub trailers: Metadata,
    pub status: Status,
}

/// What an answer amounts to: its one message, or a failure.
pub open spec fn single_payload(u: UnaryView) -> Result<Seq<u8>, StatusView> {
    if u.status.code != Code::Okay {
        Err(u.status)
    } else {
        match u.message {
            Some(m) => Ok(m.payload),
            None => Err(model::internal("unary response needs one message")),
        }
    }
}

/// Whether a codec has read the payload that was there, or there was none to read.
pub open spec fn decodes<C: Codec>(
    payload: Result<Seq<u8>, StatusView>,
    before: C,
    after: C,
    r: Result<C::Decode, Status>,
) -> bool {
    match payload {
        Err(failure) => before == after && (r matches Err(status) && status@ == failure),
        Ok(bytes) => C::decoded(before, bytes, after, r),
    }
}

impl UnaryResult {
    pub open spec fn view(&self) -> UnaryView {
        UnaryView {
            stream: self.stream_id.value(),
            metadata: self.metadata@,
            message: message_view(self.message),
            trailers: self.trailers@,
            status: self.status@,
        }
    }

    pub fn into_single_payload(self) -> (r: Result<Payload, Status>)
        ensures
            match r {
                Ok(payload) => single_payload(self@) == Ok::<Seq<u8>, StatusView>(payload@),
                Err(status) => single_payload(self@) == Err::<Seq<u8>, StatusView>(status@),
            },
    {
        if self.status.code() != Code::Okay {
            return Err(self.status);
        }
        match self.message {
            Some(message) => Ok(message.payload),
            None => Err(Status::new(Code::Internal, "unary response needs one message")),
        }
    }

    pub fn decode_single<C: Codec>(self, codec: &mut C) -> (r: Result<C::Decode, Status>)
        ensures
            decodes::<C>(single_payload(self@), *old(codec), *final(codec), r),
    {
        match self.into_single_payload() {
            Ok(payload) => codec.decode(payload.as_slice()),
            Err(status) => Err(status),
        }
    }
}

/// A piece of the answer to a call.
pub enum StreamEvent {
    Headers { stream_id: StreamId, metadata: Metadata },
    Message { stream_id: StreamId, message: MessageFrame },
    Trailers { stream_id: StreamId, metadata: Metadata, status: Status },
}

/// A piece of the answer to a call, with its message read.
#[derive(Clone, Debug)]
pub enum TypedStreamEvent<T> {
    Headers { stream_id: StreamId, metadata: Metadata },
    Message { stream_id: StreamId, message: T },
    Trailers { stream_id: StreamId, metadata: Metadata, status: Status },
}

/// What is to be read of a message.
pub open spec fn readable(compressed: bool, payload: Seq<u8>) -> Result<Seq<u8>, StatusView> {
    if compressed {
        Err(
            crate::grpc::status::fixed(
                Code::Unimplemented,
                "compressed messages are not supported",
            ),
        )
    } else {
        Ok(payload)
    }
}

impl StreamEvent {
    pub open spec fn view(&self) -> PieceView {
        match self {
            StreamEvent::Headers { stream_id, metadata } => PieceView::Headers {
                stream: stream_id.value(),
                metadata: metadata@,
            },
            StreamEvent::Message { stream_id, message } => PieceView::Message {
                stream: stream_id.value(),
                message: message@,
            },
            StreamEvent::Trailers { stream_id, metadata, status } => PieceView::Trailers {
                stream: stream_id.value(),
                metadata: metadata@,
                status: status@,
            },
        }
    }

    pub fn stream_id(&self) -> (r: StreamId)
        ensures
            r.value() == (match self@ {
                PieceView::Headers { stream, .. } => stream,
                PieceView::Message { stream, .. } => stream,
                PieceView::Trailers { stream, .. } => stream,
            }),
    {
        match self {
            StreamEvent::Headers { stream_id, .. } => *stream_id,
            StreamEvent::Message { stream_id, .. } => *stream_id,
            StreamEvent::Trailers { stream_id, .. } => *stream_id,
        }
    }

    /// The message of a piece that is one, read.
    pub fn decode_message<C: Codec>(&self, codec: &mut C) -> (r: Option<Result<C::Decode, Status>>)
        ensures
            match self@ {
                PieceView::Message { stream, message } => r is Some && decodes::<C>(
                    readable(message.compressed, message.payload),
                    *old(codec),
                    *final(codec),
                    r->0,
                ),
                _ => r is None && *final(codec) == *old(codec),
            },
    {
        match self {
            StreamEvent::Message { message, .. } => {
                if message.compressed {
                    return Some(
                        Err(
                            Status::new(
                                Code::Unimplemented,
                                "compressed messages are not supported",
                            ),
                        ),
                    );
                }
                Some(codec.decode(message.payload.as_slice()))
            },
            _ => None,
        }
    }

    /// The piece, with its message read.
    pub fn decode<C: Codec>(self, codec: &mut C) -> (r: Result<TypedStreamEvent<C::Decode>, Status>)
        ensures
            match self {
                StreamEvent::Headers { stream_id, metadata } => *final(codec) == *old(codec) && r
                    == Ok::<TypedStreamEvent<C::Decode>, Status>(
                    TypedStreamEvent::Headers { stream_id, metadata },
                ),
                StreamEvent::Trailers { stream_id, metadata, status } => *final(codec) == *old(
                    codec,
                ) && r == Ok::<TypedStreamEvent<C::Decode>, Status>(
                    TypedStreamEvent::Trailers { stream_id, metadata, status },
                ),
                StreamEvent::Message { stream_id, message } => exists|item: Result<C::Decode, Status>|
                    decodes::<C>(
                        readable(message.compressed, message.payload@),
                        *old(codec),
                        *final(codec),
                        item,
                    ) && #[trigger] typed(stream_id, item) == r,
            },
    {
        match self {
            StreamEvent::Headers { stream_id, metadata } => Ok(
                TypedStreamEvent::Headers { stream_id, metadata },
            ),
            StreamEvent::Trailers { stream_id, metadata, status } => Ok(
                TypedStreamEvent::Trailers { stream_id, metadata, status },
            ),
            StreamEvent::Message { stream_id, message } => {
                let item: Result<C::Decode, Status> = if message.compressed {
                    Err(
                        Status::new(Code::Unimplemented, "compressed messages are not supported"),
                    )
                } else {
                    codec.decode(message.payload.as_slice())
                };
                let ghost given = item;
                let r = match item {
                    Ok(message) => Ok(TypedStreamEvent::Message { stream_id, message }),
                    Err(status) => Err(status),
                };
                assert(typed(stream_id, given) == r);
                r
            },
        }
    }
}

/// A message that was read, as a piece of an answer.
pub open spec fn typed<T>(stream_id: StreamId, item: Result<T, Status>) -> Result<
    TypedStreamEvent<T>,
    Status,
> {
    match item {
        Ok(message) => Ok(TypedStreamEvent::Message { stream_id, message }),
        Err(status) => Err(status),
    }
}

pub open spec fn unary_views(list: Seq<UnaryResult>) -> Seq<UnaryView> {
    list.map_values(|u: UnaryResult| u@)
}

pub open spec fn piece_views(list: Seq<StreamEvent>) -> Seq<PieceView> {
    list.map_values(|e: StreamEvent| e@)
}

/// What waits for the owner of a client.
pub struct Ingress {
    message_pool: Pool,
    complete: Queue<UnaryResult>,
    events: Queue<StreamEvent>,
    max_buffered_len: usize,
    max_buffered_msgs: usize,
}

impl Ingress {
    pub closed spec fn view(&self) -> InboxView {
        InboxView {
            complete: unary_views(self.complete.items()),
            complete_capacity: self.complete.limit(),
            events: piece_views(self.events.items()),
            event_capacity: self.events.limit(),
            max_len: self.max_buffered_len,
            max_msgs: self.max_buffered_msgs,
            fragments: self.message_pool.supply(),
        }
    }

    pub fn new(
        message_pool: Pool,
        max_completed: usize,
        max_events: usize,
        max_buffered_len: usize,
        max_buffered_msgs: usize,
    ) -> (r: Self)
        requires
            max_completed <= u32::MAX,
            max_events <= u32::MAX,
        ensures
            r@ == (InboxView {
                complete: Seq::empty(),
                complete_capacity: max_completed as nat,
                events: Seq::empty(),
                event_capacity: max_events as nat,
                max_len: max_buffered_len,
                max_msgs: max_buffered_msgs,
                fragments: message_pool.supply(),
            }),
    {
        let r = Ingress {
            message_pool,
            complete: Queue::with_capacity(max_completed),
            events: Queue::with_capacity(max_events),
            max_buffered_len,
            max_buffered_msgs,
        };
        assert(r@.complete =~= Seq::<UnaryView>::empty());
        assert(r@.events =~= Seq::<PieceView>::empty());
        r
    }

    pub fn limits(&self) -> (r: (usize, usize))
        ensures
            r.0 == self@.max_len,
            r.1 == self@.max_msgs,
    {
        (self.max_buffered_len, self.max_buffered_msgs)
    }

    /// A place for a message that is not complete, if there is one.
    pub fn message_place(&mut self) -> (r: Option<Permit>)
        ensures
            old(self)@.fragments.gives(r is Some) == (r is Some),
            final(self)@ == (InboxView {
                fragments: old(self)@.fragments.asked(r is Some),
                ..old(self)@
            }),
    {
        self.message_pool.try_acquire()
    }

    /// The next whole answer.
    pub fn poll_unary(&mut self) -> (r: Option<UnaryResult>)
        ensures
            match r {
                None => old(self)@.complete.len() == 0 && final(self)@ == old(self)@,
                Some(u) => old(self)@.complete.len() > 0 && u@ == old(self)@.complete[0]
                    && final(self)@ == (InboxView {
                    complete: old(self)@.complete.drop_first(),
                    ..old(self)@
                }),
            },
    {
        let ghost before = self@;
        let r = self.complete.pop_front();
        proof {
            if before.complete.len() > 0 {
                assert(self@.complete =~= before.complete.drop_first());
            }
        }
        r
    }

    /// The next piece of an answer.
    pub fn poll_event(&mut self) -> (r: Option<StreamEvent>)
        ensures
            match r {
                None => old(self)@.events.len() == 0 && final(self)@ == old(self)@,
                Some(e) => old(self)@.events.len() > 0 && e@ == old(self)@.events[0]
                    && final(self)@ == (InboxView {
                    events: old(self)@.events.drop_first(),
                    ..old(self)@
                }),
            },
    {
        let ghost before = self@;
        let r = self.events.pop_front();
        proof {
            if before.events.len() > 0 {
                assert(self@.events =~= before.events.drop_first());
            }
        }
        r
    }

    /// Whether the end of an answer can be handed on.
    pub fn ensure_delivery_capacity(&self, mode: ResponseMode) -> (r: Result<(), Status>)
        ensures
            result_view(r) == model::delivery_room(self@, mode),
    {
        let _ = self.complete.len();
        let _ = self.events.len();
        match mode {
            ResponseMode::Unary => if self.complete.is_full() {
                Err(Status::new(Code::ResourceExhausted, "result queue is full"))
            } else {
                Ok(())
            },
            ResponseMode::Streaming => if self.events.is_full() {
                Err(Status::new(Code::ResourceExhausted, "event queue is full"))
            } else {
                Ok(())
            },
        }
    }

    pub fn push_unary(&mut self, result: UnaryResult) -> (r: Result<(), Status>)
        ensures
            (final(self)@, result_view(r)) == model::unary_pushed(old(self)@, result@),
    {
        let ghost before = self@;
        let ghost view = result@;
        match self.complete.push_back(result) {
            Ok(_) => {
                assert(self@.complete =~= before.complete.push(view));
                Ok(())
            },
            Err(_) => Err(Status::new(Code::ResourceExhausted, "result queue is full")),
        }
    }

    pub fn push_event(&mut self, event: StreamEvent) -> (r: Result<(), Status>)
        ensures
            (final(self)@, result_view(r)) == model::piece_pushed(old(self)@, event@),
    {
        let ghost before = self@;
        let ghost view = event@;
        match self.events.push_back(event) {
            Ok(_) => {
                assert(self@.events =~= before.events.push(view));
                Ok(())
            },
            Err(_) => Err(Status::new(Code::ResourceExhausted, "event queue is full")),
        }
    }
}

} // verus!
