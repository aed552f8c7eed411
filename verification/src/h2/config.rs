//! What a connection is built from.

use crate::collections;
use crate::collections::{PoolFault, PoolPlan};
use crate::digits;
use crate::digits::push_decimal;
use crate::h2::flow::Window;
use crate::h2::frame::HEADER_LEN;
use crate::h2::hpack::dynamic_table;
use crate::h2::ingress::PREFACE_LEN;
use crate::h2::role::Role;
use crate::h2::settings;
use crate::h2::settings::{Settings, MAX_MAX_FRAME_SIZE, MIN_MAX_FRAME_SIZE};
use crate::h2::tuning;
use crate::h2::tuning::{Throughput, Tuning};
use core::marker::PhantomData;
use vstd::prelude::*;
use vstd::string::StringExecFns;

verus! {

pub const DEFAULT_MAX_HEADER_LIST_SIZE: u32 = 16_384;

pub const DEFAULT_MAX_ACTIVE_STREAMS: usize = 256;

pub const DEFAULT_INBOUND_CAPACITY: usize = 1_048_576;

pub const DEFAULT_OUTBOUND_CAPACITY: usize = 1_048_576;

pub const DEFAULT_EVENT_CAPACITY: usize = 8_192;

pub const DEFAULT_DATA_EVENTS: usize = 64;

pub const DEFAULT_HEADER_EVENTS: usize = 64;

/// The settings, windows and capacities of a connection.
#[derive(Copy, Clone, Debug)]
pub struct Config {
    pub local_settings: Settings,
    pub recv_window_target: u32,
    pub stream_capacity: usize,
    pub event_capacity: usize,
    pub data_capacity: usize,
    pub header_capacity: usize,
    pub inbound_capacity: usize,
    pub outbound_capacity: usize,
}

/// A configuration with the given settings, window and number of streams, and the usual
/// capacities.
pub open spec fn usual_config(
    local_settings: Settings,
    recv_window_target: u32,
    stream_capacity: usize,
) -> Config {
    Config {
        local_settings,
        recv_window_target,
        stream_capacity,
        event_capacity: DEFAULT_EVENT_CAPACITY,
        data_capacity: DEFAULT_DATA_EVENTS,
        header_capacity: DEFAULT_HEADER_EVENTS,
        inbound_capacity: DEFAULT_INBOUND_CAPACITY,
        outbound_capacity: DEFAULT_OUTBOUND_CAPACITY,
    }
}

/// The settings that a profile announces.
pub open spec fn tuned_settings(stream_recv_window: u32) -> Settings {
    Settings { initial_window_size: stream_recv_window, ..settings::default_settings() }
}

/// The configuration that nothing was said about.
pub open spec fn default_config() -> Config {
    usual_config(
        tuned_settings(Throughput::STREAM_RECV_WINDOW),
        Throughput::CONN_RECV_WINDOW,
        DEFAULT_MAX_ACTIVE_STREAMS,
    )
}

/// The bytes that a connection sends before anything else.
pub open spec fn initial_outbound(config: Config, preface: bool) -> int {
    HEADER_LEN + 36 + (if preface {
        PREFACE_LEN as int
    } else {
        0
    }) + (if config.recv_window_target > Window::INITIAL {
        HEADER_LEN + 4
    } else {
        0
    })
}

impl Config {
    /// A configuration with the usual capacities.
    pub fn usual(
        local_settings: Settings,
        recv_window_target: u32,
        stream_capacity: usize,
    ) -> (r: Self)
        ensures
            r == usual_config(local_settings, recv_window_target, stream_capacity),
    {
        Config {
            local_settings,
            recv_window_target,
            stream_capacity,
            event_capacity: DEFAULT_EVENT_CAPACITY,
            data_capacity: DEFAULT_DATA_EVENTS,
            header_capacity: DEFAULT_HEADER_EVENTS,
            inbound_capacity: DEFAULT_INBOUND_CAPACITY,
            outbound_capacity: DEFAULT_OUTBOUND_CAPACITY,
        }
    }

    /// The bytes that a connection sends before anything else.
    pub fn initial_outbound_capacity<R: Role>(&self) -> (r: usize)
        ensures
            r == initial_outbound(*self, R::PREFACE_SENDS_FIRST),
    {
        let mut local: Settings = self.local_settings;
        local.max_concurrent_streams = Some(0);
        local.max_header_list_size = Some(0);
        let preface: usize = if R::PREFACE_SENDS_FIRST {
            PREFACE_LEN
        } else {
            0
        };
        let update: usize = if self.recv_window_target > Window::INITIAL as u32 {
            HEADER_LEN + 4
        } else {
            0
        };
        let count: usize = local.param_count();
        assert(count == 6) by {
            assert(settings::settings_wire(local).len() == 36);
        }
        HEADER_LEN + count * 6 + preface + update
    }
}

impl Default for Config {
    fn default() -> (r: Self)
        ensures
            r == default_config(),
    {
        let mut local: Settings = Settings::defaults();
        local.initial_window_size = Throughput::STREAM_RECV_WINDOW;
        Config::usual(local, Throughput::CONN_RECV_WINDOW, DEFAULT_MAX_ACTIVE_STREAMS)
    }
}

#[derive(Copy, Clone, Debug, PartialEq, Eq)]
pub enum ConfigError {
    ZeroCapacity(&'static str),
    StreamCapacityOverflow,
    InitialWindowOverflow,
    ReceiveWindowOverflow,
    InvalidMaxFrameSize,
    OutboundTooSmall { required: usize, actual: usize },
    Pool(PoolFault),
}

/// What is wrong with a configuration, in words.
pub open spec fn config_text(e: ConfigError) -> Seq<char> {
    match e {
        ConfigError::ZeroCapacity(name) => name@ + " capacity must be positive"@,
        ConfigError::StreamCapacityOverflow => "stream capacity exceeds u32"@,
        ConfigError::InitialWindowOverflow => "initial stream window exceeds HTTP/2 maximum"@,
        ConfigError::ReceiveWindowOverflow => "connection receive window exceeds HTTP/2 maximum"@,
        ConfigError::InvalidMaxFrameSize => "maximum frame size is outside the HTTP/2 range"@,
        ConfigError::OutboundTooSmall { required, actual } => "outbound capacity "@
            + digits::decimal(actual as nat) + " is smaller than required "@ + digits::decimal(
            required as nat,
        ),
        ConfigError::Pool(PoolFault::ZeroCapacity) => "buffer pool capacity must be positive"@,
        ConfigError::Pool(PoolFault::SlotOverflow) => "buffer pool slot count overflow"@,
        ConfigError::Pool(PoolFault::CapacityOverflow) => "buffer pool allocation size overflow"@,
    }
}

impl ConfigError {
    /// What is wrong, in words.
    pub fn text(&self) -> (r: String)
        ensures
            r@ == config_text(*self),
    {
        match *self {
            ConfigError::ZeroCapacity(name) => {
                let mut out: String = name.to_owned();
                out.append(" capacity must be positive");
                out
            },
            ConfigError::StreamCapacityOverflow => "stream capacity exceeds u32".to_owned(),
            ConfigError::InitialWindowOverflow => {
                "initial stream window exceeds HTTP/2 maximum".to_owned()
            },
            ConfigError::ReceiveWindowOverflow => {
                "connection receive window exceeds HTTP/2 maximum".to_owned()
            },
            ConfigError::InvalidMaxFrameSize => {
                "maximum frame size is outside the HTTP/2 range".to_owned()
            },
            ConfigError::OutboundTooSmall { required, actual } => {
                let mut out: String = "outbound capacity ".to_owned();
                push_decimal(&mut out, actual as u64);
                out.append(" is smaller than required ");
                push_decimal(&mut out, required as u64);
                out
            },
            ConfigError::Pool(PoolFault::ZeroCapacity) => {
                "buffer pool capacity must be positive".to_owned()
            },
            ConfigError::Pool(PoolFault::SlotOverflow) => {
                "buffer pool slot count overflow".to_owned()
            },
            ConfigError::Pool(PoolFault::CapacityOverflow) => {
                "buffer pool allocation size overflow".to_owned()
            },
        }
    }
}

/// A configuration that was found good.
pub struct ValidatedView {
    pub local: Settings,
    pub target: u32,
    pub streams: usize,
    pub events: usize,
    pub inbound: usize,
    pub outbound: usize,
    pub data_slots: usize,
    pub header_slots: usize,
    pub header_cap: usize,
}

/// The capacity that is zero, if there is one.
pub open spec fn zero_capacity(config: Config) -> Option<&'static str> {
    if config.stream_capacity == 0 {
        Some("stream")
    } else if config.event_capacity == 0 {
        Some("event")
    } else if config.data_capacity == 0 {
        Some("data")
    } else if config.header_capacity == 0 {
        Some("header")
    } else if config.inbound_capacity == 0 {
        Some("inbound")
    } else if config.outbound_capacity == 0 {
        Some("outbound")
    } else {
        None
    }
}

/// The longest list of header fields that settings let through.
pub open spec fn header_limit(local: Settings) -> u32 {
    match local.max_header_list_size {
        Some(limit) => limit,
        None => DEFAULT_MAX_HEADER_LIST_SIZE,
    }
}

/// The settings that are announced: no more streams than there is room for, no table that cannot
/// be made, and for a server no pushes.
pub open spec fn announced_settings(config: Config, server: bool) -> Settings {
    let local = config.local_settings;
    let capacity = config.stream_capacity as u32;
    Settings {
        header_table_size: dynamic_table::table_size(local.header_table_size),
        enable_push: local.enable_push && !server,
        max_concurrent_streams: Some(
            match local.max_concurrent_streams {
                Some(limit) => if limit < capacity {
                    limit
                } else {
                    capacity
                },
                None => capacity,
            },
        ),
        max_header_list_size: Some(header_limit(local)),
        ..local
    }
}

/// Whether a configuration is good.
pub open spec fn validated(config: Config, server: bool, preface: bool) -> Result<
    ValidatedView,
    ConfigError,
> {
    let local = config.local_settings;
    if let Some(name) = zero_capacity(config) {
        Err(ConfigError::ZeroCapacity(name))
    } else if config.stream_capacity > u32::MAX {
        Err(ConfigError::StreamCapacityOverflow)
    } else if local.initial_window_size > Window::MAX {
        Err(ConfigError::InitialWindowOverflow)
    } else if config.recv_window_target > Window::MAX {
        Err(ConfigError::ReceiveWindowOverflow)
    } else if !(MIN_MAX_FRAME_SIZE <= local.max_frame_size <= MAX_MAX_FRAME_SIZE) {
        Err(ConfigError::InvalidMaxFrameSize)
    } else if config.outbound_capacity < initial_outbound(config, preface) {
        Err(
            ConfigError::OutboundTooSmall {
                required: initial_outbound(config, preface) as usize,
                actual: config.outbound_capacity,
            },
        )
    } else if let Some(fault) = collections::pool_fault(config.data_capacity, 1) {
        Err(ConfigError::Pool(fault))
    } else if let Some(fault) = collections::pool_fault(
        config.header_capacity,
        header_limit(local) as usize,
    ) {
        Err(ConfigError::Pool(fault))
    } else {
        Ok(
            ValidatedView {
                local: announced_settings(config, server),
                target: config.recv_window_target,
                streams: config.stream_capacity,
                events: config.event_capacity,
                inbound: config.inbound_capacity,
                outbound: config.outbound_capacity,
                data_slots: config.data_capacity,
                header_slots: config.header_capacity,
                header_cap: header_limit(local) as usize,
            },
        )
    }
}

/// What holds of every configuration that was found good.
pub open spec fn validated_inv(v: ValidatedView, server: bool, preface: bool) -> bool {
    &&& v.streams <= u32::MAX
    &&& v.target <= Window::MAX
    &&& settings::settings_valid(v.local)
    &&& v.local.max_concurrent_streams is Some
    &&& v.local.max_header_list_size == Some(v.header_cap as u32)
    &&& v.header_cap <= u32::MAX
    &&& v.local.header_table_size <= dynamic_table::table_cap()
    &&& v.events > 0
    &&& v.outbound >= HEADER_LEN + 36 + (if preface {
        PREFACE_LEN as int
    } else {
        0
    }) + (if v.target > Window::INITIAL {
        HEADER_LEN + 4
    } else {
        0
    })
}

/// A configuration that was found good for one end of a connection.
pub struct ValidatedConfig<R: Role> {
    pub(crate) local: Settings,
    pub(crate) recv_window_target: u32,
    pub(crate) stream_capacity: usize,
    pub(crate) event_capacity: usize,
    pub(crate) inbound_capacity: usize,
    pub(crate) outbound_capacity: usize,
    pub(crate) data_plan: PoolPlan,
    pub(crate) header_plan: PoolPlan,
    pub(crate) header_list_cap: usize,
    pub(crate) marker: PhantomData<R>,
}

impl<R: Role> ValidatedConfig<R> {
    pub closed spec fn view(&self) -> ValidatedView {
        ValidatedView {
            local: self.local,
            target: self.recv_window_target,
            streams: self.stream_capacity,
            events: self.event_capacity,
            inbound: self.inbound_capacity,
            outbound: self.outbound_capacity,
            data_slots: self.data_plan.slots(),
            header_slots: self.header_plan.slots(),
            header_cap: self.header_list_cap,
        }
    }

    #[verifier::type_invariant]
    spec fn inv(self) -> bool {
        validated_inv(self@, R::IS_SERVER, R::PREFACE_SENDS_FIRST)
    }

    pub fn new(config: Config) -> (r: Result<Self, ConfigError>)
        ensures
            match r {
                Ok(good) => validated(config, R::IS_SERVER, R::PREFACE_SENDS_FIRST) == Ok::<
                    ValidatedView,
                    ConfigError,
                >(good@),
                Err(error) => validated(config, R::IS_SERVER, R::PREFACE_SENDS_FIRST) == Err::<
                    ValidatedView,
                    ConfigError,
                >(error),
            },
    {
        if config.stream_capacity == 0 {
            return Err(ConfigError::ZeroCapacity("stream"));
        }
        if config.event_capacity == 0 {
            return Err(ConfigError::ZeroCapacity("event"));
        }
        if config.data_capacity == 0 {
            return Err(ConfigError::ZeroCapacity("data"));
        }
        if config.header_capacity == 0 {
            return Err(ConfigError::ZeroCapacity("header"));
        }
        if config.inbound_capacity == 0 {
            return Err(ConfigError::ZeroCapacity("inbound"));
        }
        if config.outbound_capacity == 0 {
            return Err(ConfigError::ZeroCapacity("outbound"));
        }
        if config.stream_capacity > u32::MAX as usize {
            return Err(ConfigError::StreamCapacityOverflow);
        }
        let capacity: u32 = config.stream_capacity as u32;
        let mut local: Settings = config.local_settings;
        if local.initial_window_size > Window::MAX as u32 {
            return Err(ConfigError::InitialWindowOverflow);
        }
        if config.recv_window_target > Window::MAX as u32 {
            return Err(ConfigError::ReceiveWindowOverflow);
        }
        if local.max_frame_size < MIN_MAX_FRAME_SIZE || local.max_frame_size
            > MAX_MAX_FRAME_SIZE {
            return Err(ConfigError::InvalidMaxFrameSize);
        }
        local.header_table_size = dynamic_table::limit_for(local.header_table_size);
        if R::IS_SERVER {
            local.enable_push = false;
        }
        local.max_concurrent_streams = match local.max_concurrent_streams {
            Some(limit) => if limit < capacity {
                Some(limit)
            } else {
                Some(capacity)
            },
            None => Some(capacity),
        };
        let cap: u32 = match local.max_header_list_size {
            Some(limit) => limit,
            None => DEFAULT_MAX_HEADER_LIST_SIZE,
        };
        local.max_header_list_size = Some(cap);
        let required: usize = config.initial_outbound_capacity::<R>();
        if config.outbound_capacity < required {
            return Err(
                ConfigError::OutboundTooSmall { required, actual: config.outbound_capacity },
            );
        }
        let data_plan = match PoolPlan::new(config.data_capacity, 1) {
            Err(fault) => return Err(ConfigError::Pool(fault)),
            Ok(plan) => plan,
        };
        let header_plan = match PoolPlan::new(config.header_capacity, cap as usize) {
            Err(fault) => return Err(ConfigError::Pool(fault)),
            Ok(plan) => plan,
        };
        Ok(
            ValidatedConfig {
                local,
                recv_window_target: config.recv_window_target,
                stream_capacity: config.stream_capacity,
                event_capacity: config.event_capacity,
                inbound_capacity: config.inbound_capacity,
                outbound_capacity: config.outbound_capacity,
                data_plan,
                header_plan,
                header_list_cap: cap as usize,
                marker: PhantomData,
            },
        )
    }

    /// What holds of the parts.
    pub(crate) fn check(&self)
        ensures
            self@ == (ValidatedView {
                local: self.local,
                target: self.recv_window_target,
                streams: self.stream_capacity,
                events: self.event_capacity,
                inbound: self.inbound_capacity,
                outbound: self.outbound_capacity,
                data_slots: self.data_plan.slots(),
                header_slots: self.header_plan.slots(),
                header_cap: self.header_list_cap,
            }),
            validated_inv(self@, R::IS_SERVER, R::PREFACE_SENDS_FIRST),
    {
        proof {
            use_type_invariant(self);
        }
    }
}

impl<R: Role> Default for ValidatedConfig<R> {
    fn default() -> (r: Self)
        ensures
            validated(default_config(), R::IS_SERVER, R::PREFACE_SENDS_FIRST) == Ok::<
                ValidatedView,
                ConfigError,
            >(r@),
    {
        let config = Config::default();
        let data_plan = PoolPlan::new(DEFAULT_DATA_EVENTS, 1).unwrap();
        let header_plan = PoolPlan::new(
            DEFAULT_HEADER_EVENTS,
            DEFAULT_MAX_HEADER_LIST_SIZE as usize,
        ).unwrap();
        let mut local: Settings = config.local_settings;
        if R::IS_SERVER {
            local.enable_push = false;
        }
        local.max_concurrent_streams = Some(DEFAULT_MAX_ACTIVE_STREAMS as u32);
        local.max_header_list_size = Some(DEFAULT_MAX_HEADER_LIST_SIZE);
        proof {
            tuning::lemma_throughput();
        }
        ValidatedConfig {
            local,
            recv_window_target: config.recv_window_target,
            stream_capacity: config.stream_capacity,
            event_capacity: config.event_capacity,
            inbound_capacity: config.inbound_capacity,
            outbound_capacity: config.outbound_capacity,
            data_plan,
            header_plan,
            header_list_cap: DEFAULT_MAX_HEADER_LIST_SIZE as usize,
            marker: PhantomData,
        }
    }
}

} // verus!
