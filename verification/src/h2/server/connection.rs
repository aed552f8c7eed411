//! Requests that come in on a connection, and responses that go out.

use crate::bytes;
use crate::bytes::push_bytes;
use crate::collections::{Queue, Table};
use crate::h2::config;
use crate::h2::conn::model as conn_model;
use crate::h2::conn::places;
use crate::h2::conn::{Conn, ConnError};
use crate::h2::event::{Event, EventView, HeaderBlock};
use crate::h2::frame::ErrorCode;
use crate::h2::hpack;
use crate::h2::hpack::{borrowed, FieldView, Header, OwnedHeader};
use crate::h2::role;
use crate::h2::role::{Role, ServerRole};
use crate::h2::server::body::Body;
use crate::h2::server::config::Limits;
use crate::h2::server::model;
use crate::h2::server::model::{
    DispatchView, PendingView, RequestView, ResponseView, ServerView,
};
use crate::h2::stream::StreamId;
use vstd::prelude::*;

verus! {

/// A request, as a server sees it. Its fields hold their place in the pool for as long as it is
/// kept.
pub struct Request {
    pub headers: HeaderBlock,
    pub body: Vec<u8>,
}

/// The first field with a name.
pub open spec fn first_value(list: Seq<FieldView>, name: Seq<u8>) -> Option<Seq<u8>>
    decreases list.len(),
{
    if list.len() == 0 {
        None
    } else if list[0].name == name {
        Some(list[0].value)
    } else {
        first_value(list.drop_first(), name)
    }
}

impl Request {
    pub open spec fn view(&self) -> RequestView {
        RequestView { fields: self.headers@, body: self.body@ }
    }

    /// The value of the first field with a name.
    pub fn header(&self, name: &[u8]) -> (r: Option<&[u8]>)
        ensures
            match r {
                Some(value) => first_value(self@.fields, name@) == Some(value@),
                None => first_value(self@.fields, name@) is None,
            },
    {
        let ghost list = self@.fields;
        let fields: &[OwnedHeader] = self.headers.as_slice();
        let mut i: usize = 0;
        assert(list.subrange(0, list.len() as int) =~= list);
        while i < fields.len()
            invariant
                i <= fields@.len(),
                list == self@.fields,
                list == hpack::fields(fields@),
                first_value(list, name@) == first_value(
                    list.subrange(i as int, list.len() as int),
                    name@,
                ),
            decreases fields@.len() - i,
        {
            let field: &OwnedHeader = &fields[i];
            let ghost rest = list.subrange(i as int, list.len() as int);
            assert(rest[0] == field@);
            assert(rest.drop_first() =~= list.subrange(i + 1, list.len() as int));
            if bytes::equal(field.name.as_slice(), name) {
                return Some(field.value.as_slice());
            }
            i = i + 1;
        }
        None
    }

    pub fn path(&self) -> (r: Option<&[u8]>)
        ensures
            match r {
                Some(value) => first_value(self@.fields, bytes::text(":path")) == Some(value@),
                None => first_value(self@.fields, bytes::text(":path")) is None,
            },
    {
        self.header(bytes::text_bytes(":path"))
    }
}

/// What a server answers.
pub struct Response {
    headers: Vec<OwnedHeader>,
    body: Body,
    pub trailers: Vec<OwnedHeader>,
}

impl Response {
    pub closed spec fn view(&self) -> ResponseView {
        ResponseView {
            fields: hpack::fields(self.headers@),
            body: self.body@,
            trailers: hpack::fields(self.trailers@),
        }
    }

    pub fn new(headers: Vec<OwnedHeader>, body: Body) -> (r: Self)
        ensures
            r@ == (ResponseView {
                fields: hpack::fields(headers@),
                body: body@,
                trailers: Seq::empty(),
            }),
    {
        let r = Response { headers, body, trailers: Vec::new() };
        assert(r@.trailers =~= Seq::<FieldView>::empty());
        r
    }

    pub fn from_static(headers: &[Header<'static>], body: Body) -> (r: Self)
        ensures
            r@ == (ResponseView {
                fields: hpack::encoder::header_views(headers@),
                body: body@,
                trailers: Seq::empty(),
            }),
    {
        let mut list: Vec<OwnedHeader> = Vec::new();
        let mut i: usize = 0;
        while i < headers.len()
            invariant
                i <= headers@.len(),
                list@.len() == i,
                forall|k: int| 0 <= k < i ==> (#[trigger] list@[k])@ == headers@[k]@,
            decreases headers@.len() - i,
        {
            list.push(OwnedHeader::new(headers[i].name, headers[i].value));
            i = i + 1;
        }
        assert(hpack::fields(list@) =~= hpack::encoder::header_views(headers@));
        Response::new(list, body)
    }

    /// A response with a text.
    pub fn text(body: Body) -> (r: Self)
        ensures
            r@ == (ResponseView {
                fields: seq![
                    FieldView { name: bytes::text(":status"), value: bytes::text("200") },
                    FieldView {
                        name: bytes::text("content-type"),
                        value: bytes::text("text/plain; charset=utf-8"),
                    },
                ],
                body: body@,
                trailers: Seq::empty(),
            }),
    {
        let mut list: Vec<OwnedHeader> = Vec::new();
        list.push(OwnedHeader::new(bytes::text_bytes(":status"), bytes::text_bytes("200")));
        list.push(
            OwnedHeader::new(
                bytes::text_bytes("content-type"),
                bytes::text_bytes("text/plain; charset=utf-8"),
            ),
        );
        assert(hpack::fields(list@) =~= seq![
            FieldView { name: bytes::text(":status"), value: bytes::text("200") },
            FieldView {
                name: bytes::text("content-type"),
                value: bytes::text("text/plain; charset=utf-8"),
            },
        ]);
        Response::new(list, body)
    }

    pub fn body(&self) -> (r: &Body)
        ensures
            r@ == self@.body,
    {
        &self.body
    }
}

struct Incoming {
    headers: HeaderBlock,
    body: Vec<u8>,
}

impl Incoming {
    spec fn view(&self) -> RequestView {
        RequestView { fields: self.headers@, body: self.body@ }
    }

    fn into_request(self) -> (r: Request)
        ensures
            r@ == self@,
    {
        Request { headers: self.headers, body: self.body }
    }
}

struct PendingBody {
    stream_id: StreamId,
    body: Body,
    offset: usize,
    stalled: bool,
    trailers: Vec<OwnedHeader>,
    trailers_sent: bool,
}

impl PendingBody {
    spec fn view(&self) -> PendingView {
        PendingView {
            stream: self.stream_id.value(),
            body: self.body@,
            offset: self.offset as nat,
            stalled: self.stalled,
            trailers: hpack::fields(self.trailers@),
            trailers_sent: self.trailers_sent,
        }
    }

    fn emit_trailers(&mut self, connection: &mut Conn<ServerRole>) -> (r: Result<(), ConnError>)
        requires
            old(connection).wf(),
        ensures
            final(connection).wf(),
            (final(connection)@, final(self)@, r) == model::trailed(
                old(connection)@,
                old(self)@,
            ),
            final(connection)@.ingress == old(connection)@.ingress,
            final(self)@.body == old(self)@.body,
    {
        if self.trailers.len() == 0 || self.trailers_sent {
            return Ok(());
        }
        proof {
            conn_model::lemma_sending_keeps_ingress(connection@, self.stream_id.value());
        }
        let fields = borrowed(self.trailers.as_slice());
        match connection.send_trailers_fields(self.stream_id, fields.as_slice()) {
            Ok(_) => {},
            Err(failure) => return Err(failure),
        }
        self.trailers_sent = true;
        Ok(())
    }

    fn pump(&mut self, connection: &mut Conn<ServerRole>, max_outbound_bytes: usize) -> (r: Result<
        bool,
        ConnError,
    >)
        requires
            old(connection).wf(),
            old(self)@.offset <= old(self)@.body.len(),
        ensures
            final(connection).wf(),
            (final(connection)@, final(self)@, r) == model::pumped(
                old(connection)@,
                old(self)@,
                max_outbound_bytes as int,
            ),
            final(connection)@.ingress == old(connection)@.ingress,
            final(self)@.offset <= final(self)@.body.len(),
    {
        let ghost c = connection@;
        let ghost p = self@;
        loop
            invariant
                connection.wf(),
                c == old(connection)@,
                p == old(self)@,
                connection@.ingress == c.ingress,
                self@.offset <= self@.body.len(),
                model::pumped(c, p, max_outbound_bytes as int) == model::pumped(
                    connection@,
                    self@,
                    max_outbound_bytes as int,
                ),
            decreases self@.body.len() - self@.offset,
        {
            if self.offset >= self.body.len() {
                return match self.emit_trailers(connection) {
                    Ok(_) => Ok(true),
                    Err(failure) => Err(failure),
                };
            }
            if connection.outbound().len() >= max_outbound_bytes {
                self.stalled = false;
                return Ok(false);
            }
            let body: &[u8] = self.body.as_slice();
            let remaining: &[u8] = &body[self.offset..body.len()];
            assert(remaining@ =~= self@.body.subrange(
                self@.offset as int,
                self@.body.len() as int,
            ));
            proof {
                conn_model::lemma_sending_keeps_ingress(connection@, self.stream_id.value());
            }
            let written: usize = match connection.send_data(
                self.stream_id,
                remaining,
                self.trailers.len() == 0,
            ) {
                Ok(written) => written,
                Err(failure) => return Err(failure),
            };
            if written == 0 {
                self.stalled = true;
                return Ok(false);
            }
            self.offset = self.offset + written;
        }
    }
}

/// What is done with a request: it is answered, or it will be, or its stream is reset.
pub enum Dispatch {
    Response(Response),
    Pending,
    Reset(ErrorCode),
}

impl Dispatch {
    pub open spec fn view(&self) -> DispatchView {
        match self {
            Dispatch::Response(r) => DispatchView::Response(r@),
            Dispatch::Pending => DispatchView::Pending,
            Dispatch::Reset(error) => DispatchView::Reset(*error),
        }
    }
}

/// What an event brought about.
pub enum Taken {
    /// Nothing that concerns the owner of the server.
    Nothing,
    /// A request is complete.
    Request(StreamId, Request),
    /// The peer has reset a stream.
    Reset(StreamId),
}

/// Who answers requests. What the answers are is for the implementor to say: it is free to choose
/// what `answers` and `forgets` state.
pub trait EventSink: Sized {
    /// What is said of a request that was dealt with.
    open spec fn answers(
        before: Self,
        stream: u32,
        request: RequestView,
        after: Self,
        dispatch: DispatchView,
    ) -> bool {
        true
    }

    /// What is said of a stream that the peer has reset.
    open spec fn forgets(before: Self, stream: u32, after: Self) -> bool {
        true
    }

    fn request(&mut self, stream_id: StreamId, request: Request) -> (r: Dispatch)
        ensures
            Self::answers(*old(self), stream_id.value(), request@, *final(self), r@),
    ;

    fn reset(&mut self, stream_id: StreamId)
        ensures
            Self::forgets(*old(self), stream_id.value(), *final(self)),
    ;
}

/// Whether `n` events were put to `sink`, in order: every request that is complete, and every
/// reset. `replies` tells what it decided, `sinks` how it stood after each event.
pub open spec fn heard<S: EventSink>(
    v: ServerView,
    n: nat,
    limits: Limits,
    replies: Seq<DispatchView>,
    sink: S,
    sinks: Seq<S>,
    end: S,
) -> bool
    decreases n,
{
    if n == 0 {
        end == sink
    } else {
        let event = v.conn.ingress.events[0];
        let (next, done) = model::event_taken(model::polled(v), event, limits);
        &&& sinks.len() > 0
        &&& replies.len() > 0
        &&& match done {
            Some((id, request)) => S::answers(sink, id, request, sinks[0], replies[0]),
            None => match event {
                EventView::StreamReset { stream, .. } => S::forgets(sink, stream, sinks[0]),
                _ => sinks[0] == sink,
            },
        }
        &&& heard(
            match done {
                Some((id, _)) => model::delivered(next, id, replies[0], limits),
                None => next,
            },
            (n - 1) as nat,
            limits,
            replies.drop_first(),
            sinks[0],
            sinks.drop_first(),
            end,
        )
    }
}

/// Whether all events were put to `sink` and its answers were sent as far as they go.
pub open spec fn dealt<S: EventSink>(
    v: ServerView,
    limits: Limits,
    replies: Seq<DispatchView>,
    sink: S,
    sinks: Seq<S>,
    w: ServerView,
    end: S,
) -> bool {
    &&& w == model::drained(v, limits, replies)
    &&& heard(v, v.conn.ingress.events.len(), limits, replies, sink, sinks, end)
}

/// A connection with the requests that are not complete and the responses that are not sent.
pub struct ConnectionState {
    connection: Conn<ServerRole>,
    incoming: Table<Incoming>,
    pending: Queue<PendingBody>,
    buffered_body_bytes: usize,
}

spec fn incoming_views(entries: Map<u32, Incoming>) -> Map<u32, RequestView> {
    entries.map_values(|i: Incoming| i@)
}

spec fn pending_views(items: Seq<PendingBody>) -> Seq<PendingView> {
    items.map_values(|p: PendingBody| p@)
}

impl ConnectionState {
    pub closed spec fn view(&self) -> ServerView {
        ServerView {
            conn: self.connection@,
            incoming: incoming_views(self.incoming.entries()),
            capacity: self.incoming.limit(),
            pending: pending_views(self.pending.items()),
            pending_capacity: self.pending.limit(),
            buffered: self.buffered_body_bytes as nat,
        }
    }

    pub closed spec fn wf(&self) -> bool {
        &&& self.connection.wf()
        &&& self.incoming.entries().dom().finite()
        &&& forall|i: int|
            0 <= i < self@.pending.len() ==> (#[trigger] self@.pending[i]).offset
                <= self@.pending[i].body.len()
        &&& self.pending.items().len() <= self.pending.limit()
    }

    /// Serves a connection.
    pub fn new(connection: Conn<ServerRole>) -> (r: Self)
        requires
            connection.wf(),
        ensures
            r.wf(),
            r@ == model::fresh(connection@),
    {
        let capacity: u32 = match connection.local_settings().max_concurrent_streams {
            Some(n) => if n > 1 {
                n
            } else {
                1
            },
            None => 1,
        };
        let r = ConnectionState {
            connection,
            incoming: Table::with_capacity(capacity as usize),
            pending: Queue::with_capacity(capacity as usize),
            buffered_body_bytes: 0,
        };
        assert(r@.pending =~= Seq::<PendingView>::empty());
        assert(r@.incoming =~= Map::<u32, RequestView>::empty());
        r
    }

    pub fn connection(&self) -> (r: &Conn<ServerRole>)
        requires
            self.wf(),
        ensures
            r@ == self@.conn,
            r.wf(),
    {
        &self.connection
    }

    /// The connection, to send and receive on.
    pub fn connection_mut(&mut self) -> (r: &mut Conn<ServerRole>)
        requires
            old(self).wf(),
        ensures
            r@ == old(self)@.conn,
            r.wf(),
            final(self)@ == old(self)@.with_conn(final(r)@),
            final(r).wf() ==> final(self).wf(),
    {
        &mut self.connection
    }

    fn reset_ignoring(&mut self, stream_id: StreamId, error: ErrorCode)
        requires
            old(self).wf(),
        ensures
            final(self).wf(),
            final(self)@ == model::reset(old(self)@, stream_id.value(), error),
            final(self)@.conn.ingress == old(self)@.conn.ingress,
    {
        proof {
            conn_model::lemma_sending_keeps_ingress(self.connection@, stream_id.value());
        }
        let _ = self.connection.reset_stream(stream_id, error);
    }

    fn take_incoming(&mut self, stream_id: StreamId) -> (r: Option<Incoming>)
        requires
            old(self).wf(),
        ensures
            final(self).wf(),
            final(self)@ == model::taken(old(self)@, stream_id.value()),
            match r {
                Some(incoming) => old(self)@.incoming.contains_key(stream_id.value())
                    && incoming@ == old(self)@.incoming[stream_id.value()],
                None => !old(self)@.incoming.contains_key(stream_id.value()),
            },
            final(self).connection == old(self).connection,
    {
        let ghost before = self@;
        match self.incoming.remove(stream_id.as_u32()) {
            None => {
                assert(self@.incoming =~= before.incoming);
                None
            },
            Some(incoming) => {
                self.buffered_body_bytes = self.buffered_body_bytes.saturating_sub(
                    incoming.body.len(),
                );
                assert(self@.incoming =~= before.incoming.remove(stream_id.value()));
                Some(incoming)
            },
        }
    }

    fn insert_incoming(&mut self, stream_id: StreamId, incoming: Incoming) -> (r: bool)
        requires
            old(self).wf(),
        ensures
            final(self).wf(),
            r == (!old(self)@.incoming.contains_key(stream_id.value()) && old(self)@.incoming.len()
                < old(self)@.capacity),
            final(self)@ == (if r {
                ServerView {
                    incoming: old(self)@.incoming.insert(stream_id.value(), incoming@),
                    ..old(self)@
                }
            } else {
                old(self)@
            }),
    {
        let ghost before = self@;
        proof {
            lemma_views_len(self.incoming.entries());
        }
        match self.incoming.try_insert(stream_id.as_u32(), incoming) {
            Ok(_) => {
                assert(self@.incoming =~= before.incoming.insert(stream_id.value(), incoming@));
                true
            },
            Err(_) => false,
        }
    }

    fn receive_data(
        &mut self,
        stream_id: StreamId,
        data: &[u8],
        end_stream: bool,
        limits: Limits,
    ) -> (r: Option<Request>)
        requires
            old(self).wf(),
        ensures
            final(self).wf(),
            ({
                let (next, done) = model::data_buffered(
                    old(self)@,
                    stream_id.value(),
                    data@,
                    end_stream,
                    limits,
                );
                &&& final(self)@ == next
                &&& match r {
                    Some(request) => done == Some(request@),
                    None => done is None,
                }
            }),
            final(self)@.conn.ingress == old(self)@.conn.ingress,
    {
        let ghost before = self@;
        let ghost id = stream_id.value();
        let body_len: usize = match self.incoming.get(stream_id.as_u32()) {
            None => return None,
            Some(incoming) => incoming.body.len(),
        };
        let body_bytes: usize = body_len.saturating_add(data.len());
        let connection_body_bytes: usize = self.buffered_body_bytes.saturating_add(data.len());
        if body_bytes > limits.max_request_body_bytes || connection_body_bytes
            > limits.max_connection_body_bytes {
            let _ = self.take_incoming(stream_id);
            self.reset_ignoring(stream_id, ErrorCode::EnhanceYourCalm);
            return None;
        }
        let ghost entries = self.incoming.entries();
        let count: usize = self.incoming.len();
        assert(count <= self.incoming.limit());
        if let Some(mut incoming) = self.incoming.remove(stream_id.as_u32()) {
            push_bytes(&mut incoming.body, data);
            proof {
                lemma_removed_len(entries, id);
            }
            let inserted = self.incoming.try_insert(stream_id.as_u32(), incoming);
            assert(inserted is Ok);
        }
        self.buffered_body_bytes = connection_body_bytes;
        let ghost whole = RequestView {
            body: before.incoming[id].body + data@,
            ..before.incoming[id]
        };
        assert(self@.incoming =~= before.incoming.insert(id, whole));
        if end_stream {
            match self.take_incoming(stream_id) {
                Some(incoming) => Some(incoming.into_request()),
                None => None,
            }
        } else {
            None
        }
    }

    /// Starts a response.
    pub fn begin_response(&mut self, stream_id: StreamId, response: Response, limits: Limits)
        requires
            old(self).wf(),
        ensures
            final(self).wf(),
            final(self)@ == model::responded(old(self)@, stream_id.value(), response@, limits),
            final(self)@.conn.ingress == old(self)@.conn.ingress,
    {
        let ghost before = self@;
        if !self.connection.has_stream(stream_id) {
            return;
        }
        let end_stream = response.body.is_empty() && response.trailers.len() == 0;
        let fields = borrowed(response.headers.as_slice());
        proof {
            conn_model::lemma_sending_keeps_ingress(self.connection@, stream_id.value());
        }
        let sent = self.connection.send_response(stream_id, fields.as_slice(), end_stream);
        if sent.is_err() || end_stream {
            return;
        }
        let mut body = PendingBody {
            stream_id,
            body: response.body,
            offset: 0,
            stalled: false,
            trailers: response.trailers,
            trailers_sent: false,
        };
        let done = match body.pump(&mut self.connection, limits.max_outbound_bytes) {
            Ok(done) => done,
            Err(_) => false,
        };
        if !done {
            let ghost left = body@;
            let ghost mid = self@;
            match self.pending.push_back(body) {
                Ok(_) => {
                    assert(self@.pending =~= mid.pending.push(left));
                },
                Err(_) => {
                    self.reset_ignoring(stream_id, ErrorCode::EnhanceYourCalm);
                },
            }
        }
    }

    /// Does what the owner of the server has decided of a request.
    pub fn deliver(&mut self, stream_id: StreamId, dispatch: Dispatch, limits: Limits)
        requires
            old(self).wf(),
        ensures
            final(self).wf(),
            final(self)@ == model::delivered(old(self)@, stream_id.value(), dispatch@, limits),
            final(self)@.conn.ingress == old(self)@.conn.ingress,
    {
        proof {
            reveal(model::delivered);
        }
        match dispatch {
            Dispatch::Response(response) => self.begin_response(stream_id, response, limits),
            Dispatch::Pending => {},
            Dispatch::Reset(error) => self.reset_ignoring(stream_id, error),
        }
    }

    /// Forgets what belongs to a stream.
    fn reset_stream(&mut self, stream_id: StreamId)
        requires
            old(self).wf(),
        ensures
            final(self).wf(),
            final(self)@ == (ServerView {
                pending: model::dropped(old(self)@.pending, stream_id.value()),
                ..model::taken(old(self)@, stream_id.value())
            }),
    {
        let _ = self.take_incoming(stream_id);
        self.drop_pending(stream_id);
    }

    /// Drops the responses to a stream.
    fn drop_pending(&mut self, stream_id: StreamId)
        requires
            old(self).wf(),
        ensures
            final(self).wf(),
            final(self)@ == (ServerView {
                pending: model::dropped(old(self)@.pending, stream_id.value()),
                ..old(self)@
            }),
    {
        let ghost before = self@;
        let ghost keep = |p: PendingView| p.stream != stream_id.value();
        let len: usize = self.pending.len();
        let mut i: usize = 0;
        assert(before.pending.subrange(0, 0).filter(keep) =~= Seq::<PendingView>::empty());
        assert(before.pending.subrange(0, len as int) =~= before.pending);
        while i < len
            invariant
                i <= len,
                len == before.pending.len(),
                self.wf(),
                forall|k: int|
                    0 <= k < before.pending.len() ==> (#[trigger] before.pending[k]).offset
                        <= before.pending[k].body.len(),
                keep == (|p: PendingView| p.stream != stream_id.value()),
                self@ == (ServerView {
                    pending: before.pending.subrange(i as int, len as int)
                        + before.pending.subrange(0, i as int).filter(keep),
                    ..before
                }),
            decreases len - i,
        {
            let ghost at = self@.pending;
            let ghost done = before.pending.subrange(0, i as int);
            let ghost first = before.pending[i as int];
            proof {
                let more = before.pending.subrange(0, i + 1);
                assert(more.drop_last() =~= done);
                assert(more.last() == first);
                reveal(Seq::filter);
                assert(at.len() >= len - i);
                assert(at[0] == first);
                assert(self.pending.items().len() == at.len());
                assert(self.pending.items()[0]@ == first);
            }
            let popped = self.pending.pop_front();
            assert(popped is Some);
            assert(self@.pending =~= at.drop_first());
            if let Some(body) = popped {
                assert(body@ == first);
                if body.stream_id.as_u32() != stream_id.as_u32() {
                    let pushed = self.pending.push_back(body);
                    assert(pushed is Ok);
                    assert(self@.pending =~= at.drop_first().push(first));
                }
            }
            i = i + 1;
            assert(self@.pending =~= before.pending.subrange(i as int, len as int)
                + before.pending.subrange(0, i as int).filter(keep));
        }
        assert(before.pending.subrange(len as int, len as int) =~= Seq::<PendingView>::empty());
        assert(self@.pending =~= before.pending.filter(keep));
    }

    /// Deals with one event, of which the header fields of a request alone are kept.
    fn take_event(&mut self, event: Event, limits: Limits) -> (r: Taken)
        requires
            old(self).wf(),
            old(self).connection.lends(event),
        ensures
            final(self).wf(),
            ({
                let (next, done) = model::event_taken(
                    model::freed(old(self)@, event@),
                    event@,
                    limits,
                );
                &&& final(self)@ == next
                &&& match r {
                    Taken::Request(id, request) => done == Some((id.value(), request@)),
                    Taken::Nothing => done is None,
                    Taken::Reset(id) => done is None && (event matches Event::StreamReset {
                        stream_id,
                        error,
                    } && stream_id == id),
                }
                &&& event is StreamReset ==> r is Reset
            }),
            final(self)@.conn.ingress == old(self)@.conn.ingress.keeping_headers(event@),
    {
        proof {
            reveal(model::event_taken);
        }
        match event {
            Event::Headers { stream_id, headers, end_stream, trailing } => {
                if trailing {
                    match self.take_incoming(stream_id) {
                        None => Taken::Nothing,
                        Some(incoming) => {
                            let mut incoming: Incoming = incoming;
                            let limit: Option<u32> = self.connection.local_settings().max_header_list_size;
                            match incoming.headers.append(headers, limit) {
                                Ok(_) => Taken::Request(stream_id, incoming.into_request()),
                                Err(_) => {
                                    self.reset_ignoring(stream_id, ErrorCode::EnhanceYourCalm);
                                    Taken::Nothing
                                },
                            }
                        },
                    }
                } else if end_stream {
                    let request = Request { headers, body: Vec::new() };
                    assert(request@.body =~= Seq::<u8>::empty());
                    Taken::Request(stream_id, request)
                } else {
                    let incoming = Incoming { headers, body: Vec::new() };
                    assert(incoming@.body =~= Seq::<u8>::empty());
                    if !self.insert_incoming(stream_id, incoming) {
                        self.reset_ignoring(stream_id, ErrorCode::EnhanceYourCalm);
                    }
                    Taken::Nothing
                }
            },
            Event::Data { stream_id, data, end_stream } => {
                let data: Vec<u8> = self.connection.reclaim_data(data);
                match self.receive_data(stream_id, data.as_slice(), end_stream, limits) {
                    Some(request) => Taken::Request(stream_id, request),
                    None => Taken::Nothing,
                }
            },
            Event::StreamReset { stream_id, error } => {
                self.reset_stream(stream_id);
                Taken::Reset(stream_id)
            },
            other => {
                self.connection.reclaim(other);
                Taken::Nothing
            },
        }
    }

    /// Deals with all events, and goes on with responses where a window has opened. Which
    /// answers go out is for `sink` to decide.
    pub fn drain_events<S: EventSink>(&mut self, limits: Limits, sink: &mut S) -> (r: usize)
        requires
            old(self).wf(),
        ensures
            final(self).wf(),
            r == old(self)@.conn.ingress.events.len(),
            final(self)@.conn.ingress.events.len() == 0,
            final(self)@.conn.ingress.input == old(self)@.conn.ingress.input,
            places::lent_data(final(self)@.conn.ingress) == places::lent_data(
                old(self)@.conn.ingress,
            ),
            exists|replies: Seq<DispatchView>, sinks: Seq<S>| #[trigger]
                dealt(
                    old(self)@,
                    limits,
                    replies,
                    *old(sink),
                    sinks,
                    final(self)@,
                    *final(sink),
                ),
    {
        let ghost before = self@;
        let ghost first = *sink;
        let ghost total = before.conn.ingress.events.len();
        let ghost mut replies: Seq<DispatchView> = Seq::empty();
        let ghost mut sinks: Seq<S> = Seq::empty();
        let all: usize = self.connection.event_count();
        let mut count: usize = 0;
        proof {
            assert forall|more: Seq<DispatchView>|
                model::handled(before, total, limits, replies + more) == #[trigger] model::handled(
                    self@,
                    total,
                    limits,
                    more,
                ) by {
                assert(replies + more =~= more);
            }
            assert forall|more: Seq<DispatchView>, then: Seq<S>, end: S| #[trigger]
                heard(before, total, limits, more, first, then, end) implies heard(
                before,
                total,
                limits,
                replies + more,
                first,
                sinks + then,
                end,
            ) by {
                assert(replies + more =~= more);
                assert(sinks + then =~= then);
            }
        }
        while count < all
            invariant
                self.wf(),
                count <= all,
                all == total,
                self@.conn.ingress.events.len() == total - count,
                self@.conn.ingress.input == before.conn.ingress.input,
                places::lent_data(self@.conn.ingress) == places::lent_data(before.conn.ingress),
                forall|more: Seq<DispatchView>|
                    model::handled(before, total, limits, replies + more)
                        == #[trigger] model::handled(self@, (total - count) as nat, limits, more),
                forall|more: Seq<DispatchView>, then: Seq<S>, end: S| #[trigger]
                    heard(self@, (total - count) as nat, limits, more, *sink, then, end) ==> heard(
                        before,
                        total,
                        limits,
                        replies + more,
                        first,
                        sinks + then,
                        end,
                    ),
            decreases all - count,
        {
            let ghost at = self@;
            let ghost stood = *sink;
            let ghost mut reply: DispatchView = DispatchView::Pending;
            let polled = self.connection.poll_event();
            assert(polled is Some);
            if let Some(event) = polled {
                proof {
                    places::law_places_come_back(at.conn.ingress);
                }
                assert(model::freed(self@, at.conn.ingress.events[0]) =~= model::polled(at));
                match self.take_event(event, limits) {
                    Taken::Nothing => {},
                    Taken::Reset(stream_id) => sink.reset(stream_id),
                    Taken::Request(stream_id, request) => {
                        let dispatch = sink.request(stream_id, request);
                        proof {
                            reply = dispatch@;
                        }
                        self.deliver(stream_id, dispatch, limits);
                    },
                }
            }
            proof {
                let ghost next = self@;
                assert forall|more: Seq<DispatchView>|
                    model::handled(before, total, limits, replies.push(reply) + more)
                        == #[trigger] model::handled(
                        next,
                        (total - count - 1) as nat,
                        limits,
                        more,
                    ) by {
                    let longer = seq![reply] + more;
                    assert(replies.push(reply) + more =~= replies + longer);
                    assert(longer.drop_first() =~= more);
                    assert(longer[0] == reply);
                    assert(model::handled(at, (total - count) as nat, limits, longer)
                        == model::handled(next, (total - count - 1) as nat, limits, more));
                }
                let stands = *sink;
                assert forall|more: Seq<DispatchView>, then: Seq<S>, end: S| #[trigger]
                    heard(next, (total - count - 1) as nat, limits, more, stands, then, end) implies heard(
                    before,
                    total,
                    limits,
                    replies.push(reply) + more,
                    first,
                    sinks.push(stands) + then,
                    end,
                ) by {
                    let longer = seq![reply] + more;
                    let later = seq![stands] + then;
                    assert(replies.push(reply) + more =~= replies + longer);
                    assert(sinks.push(stands) + then =~= sinks + later);
                    assert(longer.drop_first() =~= more);
                    assert(later.drop_first() =~= then);
                    assert(heard(at, (total - count) as nat, limits, longer, stood, later, end));
                }
                replies = replies.push(reply);
                sinks = sinks.push(stands);
            }
            count = count + 1;
        }
        let ghost mid = self@;
        assert(self@.conn.ingress.events =~= Seq::<EventView>::empty());
        self.resume_pending(limits);
        proof {
            let none = Seq::<DispatchView>::empty();
            assert(replies + none =~= replies);
            assert(count == total);
            assert(model::handled(mid, (total - count) as nat, limits, none) == mid);
            assert(model::handled(before, total, limits, replies + none) == mid);
            assert(self@ == model::drained(before, limits, replies));
            let nobody = Seq::<S>::empty();
            assert(sinks + nobody =~= sinks);
            assert(heard(mid, (total - count) as nat, limits, none, *sink, nobody, *sink));
            assert(heard(before, total, limits, replies + none, first, sinks + nobody, *sink));
            assert(dealt(before, limits, replies, first, sinks, self@, *sink));
        }
        count
    }

    fn resume_pending(&mut self, limits: Limits)
        requires
            old(self).wf(),
        ensures
            final(self).wf(),
            final(self)@ == model::woken(old(self)@, limits),
            final(self)@.conn.ingress == old(self)@.conn.ingress,
    {
        proof {
            reveal(model::woken);
        }
        if self.connection.take_window_opened() {
            self.pump_pending(limits, true);
        }
    }

    /// Goes once round the responses that are not sent.
    pub fn pump_pending(&mut self, limits: Limits, resume: bool)
        requires
            old(self).wf(),
        ensures
            final(self).wf(),
            final(self)@ == model::round(
                old(self)@,
                old(self)@.pending.len(),
                limits,
                resume,
            ),
            final(self)@.conn.ingress == old(self)@.conn.ingress,
    {
        let ghost before = self@;
        let len: usize = self.pending.len();
        let mut i: usize = 0;
        while i < len
            invariant
                i <= len,
                self.wf(),
                self@.pending.len() >= len - i,
                self@.conn.ingress == before.conn.ingress,
                model::round(before, len as nat, limits, resume) == model::round(
                    self@,
                    (len - i) as nat,
                    limits,
                    resume,
                ),
            decreases len - i,
        {
            let ghost at = self@;
            let popped = self.pending.pop_front();
            assert(popped is Some);
            assert(self@.pending =~= at.pending.drop_first());
            if let Some(body) = popped {
                let mut body: PendingBody = body;
                assert(body@ == at.pending[0]);
                if resume {
                    body.stalled = false;
                }
                let waits = body.stalled || self.connection.outbound().len()
                    >= limits.max_outbound_bytes;
                let unsent = if waits {
                    true
                } else {
                    match body.pump(&mut self.connection, limits.max_outbound_bytes) {
                        Ok(done) => !done,
                        Err(_) => false,
                    }
                };
                if unsent {
                    let ghost left = body@;
                    let ghost rest = self@.pending;
                    let pushed = self.pending.push_back(body);
                    assert(pushed is Ok);
                    assert(self@.pending =~= rest.push(left));
                }
            }
            i = i + 1;
        }
    }

    /// Forgets everything that is under way.
    pub fn close(&mut self)
        requires
            old(self).wf(),
        ensures
            final(self).wf(),
            final(self)@ == (ServerView {
                pending: Seq::empty(),
                incoming: Map::empty(),
                buffered: 0,
                ..old(self)@
            }),
    {
        self.pending.clear();
        self.incoming.clear();
        self.buffered_body_bytes = 0;
        assert(self@.pending =~= Seq::<PendingView>::empty());
        assert(self@.incoming =~= Map::<u32, RequestView>::empty());
    }
}

impl Default for ConnectionState {
    fn default() -> (r: Self)
        ensures
            r.wf(),
            config::validated(
                config::default_config(),
                ServerRole::IS_SERVER,
                ServerRole::PREFACE_SENDS_FIRST,
            ) matches Ok(c) && r@ == model::fresh(
                conn_model::initial(
                    c,
                    ServerRole::PREFACE_SENDS_FIRST,
                    ServerRole::FIRST_LOCAL_STREAM_ID,
                ),
            ),
    {
        proof {
            role::lemma_server();
        }
        ConnectionState::new(Conn::<ServerRole>::new())
    }
}

proof fn lemma_views_len(entries: Map<u32, Incoming>)
    requires
        entries.dom().finite(),
    ensures
        incoming_views(entries).len() == entries.len(),
{
    assert(incoming_views(entries).dom() =~= entries.dom());
}

proof fn lemma_removed_len(entries: Map<u32, Incoming>, id: u32)
    requires
        entries.dom().finite(),
        entries.contains_key(id),
    ensures
        entries.remove(id).len() + 1 == entries.len(),
{
    assert(entries.remove(id).dom() =~= entries.dom().remove(id));
}

} // verus!
