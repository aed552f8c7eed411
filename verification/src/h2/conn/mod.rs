//! A connection.

pub mod answers;
pub mod blocks;
pub mod laws;
pub mod model;
pub mod places;
pub mod progress;
mod receive;
pub mod received;
mod send;
pub mod sending;
pub mod sent;

pub use crate::h2::config::{Config, ConfigError, ValidatedConfig};
pub use crate::h2::error::ConnError;
pub use crate::h2::event::{DataPayload, Event, HeaderBlock};
pub use crate::h2::settings::Settings;

use crate::bytes;
use crate::bytes::read_u32;
use crate::h2::config;
use crate::h2::egress;
use crate::h2::egress::Egress;
use crate::h2::event;
use crate::h2::flow::Window;
use crate::h2::frame;
use crate::h2::frame::{ErrorCode, FrameLength, SettingId, WindowIncrement};
use crate::h2::hpack::encoder;
use crate::h2::ingress;
use crate::h2::ingress::{client_preface, Ingress, IngressConfig};
use crate::h2::role;
use crate::h2::role::Role;
use crate::h2::settings;
use crate::h2::stream::StreamId;
use crate::h2::stream_registry::StreamRegistry;
use crate::h2::tuning::Tuning;
use core::marker::PhantomData;
use model::{ConnView, MAX_RESET_STREAMS};
use vstd::prelude::*;

verus! {

/// What was taken to be written: bytes, or bytes followed by a body.
pub enum OutboundWrite {
    Buffered(usize),
    Split { prefix_len: usize, body: Vec<u8> },
}

/// One end of a connection.
pub struct Conn<R: Role> {
    role: PhantomData<R>,
    ingress: Ingress,
    egress: Egress,
    peer_settings_received: bool,
    goaway_sent: bool,
    goaway_received: Option<ErrorCode>,
    local_settings: Settings,
    peer_settings: Settings,
    send_window: Window,
    recv_window: Window,
    recv_window_target: u32,
    streams: StreamRegistry<R>,
    conn_pending_release: u32,
    peer_reset_count: u32,
    send_window_opened: bool,
}

struct DataPlan {
    length: FrameLength,
    end_stream: bool,
}

proof fn lemma_sets_table_size(params: Seq<(Option<SettingId>, u32)>)
    requires
        params.len() > 0,
    ensures
        model::sets_table_size(params) == (params[0].0 == Some(SettingId::HeaderTableSize)
            || model::sets_table_size(params.drop_first())),
{
    let rest = params.drop_first();
    if model::sets_table_size(params) {
        let i = choose|i: int|
            0 <= i < params.len() && #[trigger] params[i].0 == Some(SettingId::HeaderTableSize);
        if i > 0 {
            assert(rest[i - 1].0 == Some(SettingId::HeaderTableSize));
        }
    }
    if model::sets_table_size(rest) {
        let i = choose|i: int|
            0 <= i < rest.len() && #[trigger] rest[i].0 == Some(SettingId::HeaderTableSize);
        assert(params[i + 1].0 == Some(SettingId::HeaderTableSize));
    }
    if params[0].0 == Some(SettingId::HeaderTableSize) {
        assert(model::sets_table_size(params));
    }
}

/// Applies the parameters of a SETTINGS frame, and tells whether one of them is the size of
/// the table for header fields.
fn apply_params(current: Settings, params: &[u8]) -> (r: Result<(Settings, bool), ConnError>)
    requires
        params@.len() % 6 == 0,
        settings::settings_valid(current),
    ensures
        match r {
            Ok((next, sized)) => settings::applied_all(current, frame::settings_in(params@)) == Ok::<
                Settings,
                ConnError,
            >(next) && sized == model::sets_table_size(frame::settings_in(params@))
                && settings::settings_valid(next),
            Err(failure) => settings::applied_all(current, frame::settings_in(params@)) == Err::<
                Settings,
                ConnError,
            >(failure),
        },
{
    let ghost all = frame::settings_in(params@);
    let mut next: Settings = current;
    let mut sized = false;
    let mut offset: usize = 0;
    assert(params@.subrange(0, params@.len() as int) =~= params@);
    while offset < params.len()
        invariant
            all == frame::settings_in(params@),
            params@.len() % 6 == 0,
            offset % 6 == 0,
            offset <= params@.len(),
            settings::settings_valid(next),
            settings::applied_all(current, all) == settings::applied_all(
                next,
                frame::settings_in(params@.subrange(offset as int, params@.len() as int)),
            ),
            model::sets_table_size(all) == (sized || model::sets_table_size(
                frame::settings_in(params@.subrange(offset as int, params@.len() as int)),
            )),
        decreases params@.len() - offset,
    {
        let ghost rest = params@.subrange(offset as int, params@.len() as int);
        let ghost tail = params@.subrange(offset + 6, params@.len() as int);
        assert(rest.subrange(6, rest.len() as int) =~= tail);
        assert(frame::settings_in(rest).drop_first() =~= frame::settings_in(tail));
        proof {
            lemma_sets_table_size(frame::settings_in(rest));
        }
        let raw: u16 = bytes::read_u16(params, offset);
        let value: u32 = read_u32(params, offset + 2);
        assert(frame::settings_in(rest)[0] == frame::setting_at(rest));
        assert(bytes::be16(rest, 0) == raw && bytes::be32(rest, 2) == value);
        if let Some(id) = SettingId::from_u16(raw) {
            match next.apply(id, value) {
                Ok(_) => {},
                Err(failure) => return Err(failure),
            }
            if id == SettingId::HeaderTableSize {
                sized = true;
            }
        }
        offset = offset + 6;
    }
    Ok((next, sized))
}

impl<R: Role> Conn<R> {
    pub closed spec fn view(&self) -> ConnView {
        ConnView {
            ingress: self.ingress@,
            egress: self.egress@,
            settings_received: self.peer_settings_received,
            goaway_sent: self.goaway_sent,
            goaway_received: self.goaway_received,
            local: self.local_settings,
            peer: self.peer_settings,
            send_window: self.send_window,
            recv_window: self.recv_window,
            recv_target: self.recv_window_target,
            streams: self.streams@,
            pending_release: self.conn_pending_release,
            peer_resets: self.peer_reset_count,
            opened: self.send_window_opened,
        }
    }

    /// Whether data holds a place of the pool of this connection.
    pub closed spec fn lends_data(&self, data: DataPayload) -> bool {
        data.place_of() == self.ingress.data_pool()
    }

    /// Whether a block of header fields holds a place of the pool of this connection.
    pub closed spec fn lends_headers(&self, headers: HeaderBlock) -> bool {
        headers.within(self.ingress.header_parts())
    }

    /// Whether what an event holds are places of the pools of this connection.
    pub open spec fn lends(&self, event: Event) -> bool {
        match event {
            Event::GoAway { debug, .. } => self.lends_data(debug),
            Event::Data { data, .. } => self.lends_data(data),
            Event::Headers { headers, .. } => self.lends_headers(headers),
            Event::PushPromise { headers, .. } => self.lends_headers(headers),
            _ => true,
        }
    }

    pub closed spec fn wf(&self) -> bool {
        &&& self.ingress.wf()
        &&& self.egress.wf()
        &&& self.streams.wf()
        &&& settings::settings_valid(self.local_settings)
        &&& settings::settings_valid(self.peer_settings)
        &&& self.recv_window_target <= Window::MAX
        &&& self.peer_reset_count <= MAX_RESET_STREAMS
    }

    pub proof fn lemma_wf(&self)
        requires
            self.wf(),
        ensures
            model::conn_inv(self@),
            self@.egress.capacity <= isize::MAX,
    {
        self.ingress.lemma_wf();
        self.egress.lemma_wf();
        self.streams.lemma_wf();
    }

    pub fn new() -> (r: Self)
        requires
            R::FIRST_LOCAL_STREAM_ID <= StreamId::MAX,
        ensures
            r.wf(),
            config::validated(config::default_config(), R::IS_SERVER, R::PREFACE_SENDS_FIRST)
                matches Ok(c) && r@ == model::initial(
                c,
                R::PREFACE_SENDS_FIRST,
                R::FIRST_LOCAL_STREAM_ID,
            ),
    {
        Self::from_config(ValidatedConfig::default())
    }

    /// A connection for a resource profile.
    pub fn with_tuning<P: Tuning>() -> (r: Result<Self, ConfigError>)
        requires
            R::FIRST_LOCAL_STREAM_ID <= StreamId::MAX,
        ensures
            Self::built(
                config::usual_config(
                    config::tuned_settings(P::STREAM_RECV_WINDOW),
                    P::CONN_RECV_WINDOW,
                    P::MAX_ACTIVE_STREAMS,
                ),
                r,
            ),
    {
        let mut local: Settings = Settings::defaults();
        local.initial_window_size = P::STREAM_RECV_WINDOW;
        Self::with_config(Config::usual(local, P::CONN_RECV_WINDOW, P::MAX_ACTIVE_STREAMS))
    }

    /// What is built from a configuration.
    pub open spec fn built(c: Config, r: Result<Self, ConfigError>) -> bool {
        match config::validated(c, R::IS_SERVER, R::PREFACE_SENDS_FIRST) {
            Ok(good) => r matches Ok(conn) && conn.wf() && conn@ == model::initial(
                good,
                R::PREFACE_SENDS_FIRST,
                R::FIRST_LOCAL_STREAM_ID,
            ),
            Err(failure) => r matches Err(e) && e == failure,
        }
    }

    pub fn with_local_settings(local: Settings, recv_window_target: u32) -> (r: Result<
        Self,
        ConfigError,
    >)
        requires
            R::FIRST_LOCAL_STREAM_ID <= StreamId::MAX,
        ensures
            Self::built(
                config::usual_config(
                    local,
                    recv_window_target,
                    match local.max_concurrent_streams {
                        Some(limit) => if limit == 0 {
                            1
                        } else {
                            limit as usize
                        },
                        None => config::DEFAULT_MAX_ACTIVE_STREAMS,
                    },
                ),
                r,
            ),
    {
        let stream_capacity: usize = match local.max_concurrent_streams {
            Some(limit) => if limit == 0 {
                1
            } else {
                limit as usize
            },
            None => config::DEFAULT_MAX_ACTIVE_STREAMS,
        };
        Self::with_config(Config::usual(local, recv_window_target, stream_capacity))
    }

    pub fn with_config(c: Config) -> (r: Result<Self, ConfigError>)
        requires
            R::FIRST_LOCAL_STREAM_ID <= StreamId::MAX,
            c.event_capacity <= u32::MAX,
            c.outbound_capacity <= isize::MAX,
        ensures
            Self::built(c, r),
    {
        match ValidatedConfig::new(c) {
            Ok(good) => Ok(Self::from_config(good)),
            Err(failure) => Err(failure),
        }
    }

    pub fn from_config(c: ValidatedConfig<R>) -> (r: Self)
        requires
            R::FIRST_LOCAL_STREAM_ID <= StreamId::MAX,
            c@.events <= u32::MAX,
            c@.outbound <= isize::MAX,
        ensures
            r.wf(),
            r@ == model::initial(c@, R::PREFACE_SENDS_FIRST, R::FIRST_LOCAL_STREAM_ID),
    {
        c.check();
        let ghost cv = c@;
        let mut ingress = Ingress::from_config(
            IngressConfig {
                inbound_capacity: c.inbound_capacity,
                event_capacity: c.event_capacity,
                data_plan: c.data_plan,
                header_plan: c.header_plan,
                decoder_table_size: c.local.header_table_size as usize,
                header_cap: c.header_list_cap,
                preface_done: R::PREFACE_SENDS_FIRST,
            },
        );
        let mut egress = Egress::from_capacity(
            c.outbound_capacity,
            c.local.header_table_size as usize,
        ).unwrap();
        let mut recv_window = Window::new();
        assert(egress@.encoder.table.fields =~= Seq::<crate::h2::hpack::FieldView>::empty());
        if R::PREFACE_SENDS_FIRST {
            egress.write(client_preface());
            let _ = ingress.push_event(Event::PrefaceComplete);
            assert(egress@.bytes =~= ingress::preface());
            assert(ingress@.events =~= seq![event::EventView::PrefaceComplete]);
        }
        let local: Settings = c.local;
        proof {
            lemma_settings_len(local);
            ingress::lemma_preface_len();
        }
        let _ = egress.initial_settings(&local);
        let target: u32 = c.recv_window_target;
        if target > Window::INITIAL as u32 {
            let bump: u32 = target - Window::INITIAL as u32;
            let _ = recv_window.increase(bump);
            if let Some(increment) = WindowIncrement::new(bump) {
                let _ = egress.window_update(StreamId::connection(), increment);
            }
        }
        let r = Conn {
            role: PhantomData,
            ingress,
            egress,
            peer_settings_received: false,
            goaway_sent: false,
            goaway_received: None,
            local_settings: local,
            peer_settings: Settings::defaults(),
            send_window: Window::new(),
            recv_window,
            recv_window_target: target,
            streams: StreamRegistry::new(c.stream_capacity),
            conn_pending_release: 0,
            peer_reset_count: 0,
            send_window_opened: false,
        };
        assert(r@ =~= model::initial(cv, R::PREFACE_SENDS_FIRST, R::FIRST_LOCAL_STREAM_ID));
        r
    }
}

proof fn lemma_settings_len(s: Settings)
    ensures
        settings::settings_wire(s).len() <= 36,
{
}

} // verus!
