//! How a connection is set up, and what it sends first.

use crate::h2::config;
use crate::h2::config::{Config, ConfigError, ValidatedView};
use crate::h2::conn;
use crate::h2::conn::answers;
use crate::h2::event;
use crate::h2::frame::FrameView;
use crate::h2::hpack::coding;
use crate::h2::hpack::FieldView;
use crate::h2::server;
use crate::h2::settings;
use crate::h2::settings::Settings;
use crate::h2::tuning;
use crate::h2::wire;
use vstd::prelude::*;

verus! {

/// What a connection has to send first: of a client the preface, then SETTINGS with what this end
/// announces, and then, where it takes more than the protocol lets a peer send at first,
/// WINDOW_UPDATE for the rest. Nothing is open, and both windows are as the protocol has them but
/// for that update.
#[verifier::rlimit(60)]
pub proof fn law_connections_begin(c: ValidatedView, preface: bool, first_local: u32)
    requires
        c.target <= 0x7fff_ffff,
    ensures
        ({
            let v = conn::model::initial(c, preface, first_local);
            let first = if preface {
                seq![
                    0x50u8, 0x52, 0x49, 0x20, 0x2a, 0x20, 0x48, 0x54, 0x54, 0x50, 0x2f, 0x32, 0x2e,
                    0x30, 0x0d, 0x0a, 0x0d, 0x0a, 0x53, 0x4d, 0x0d, 0x0a, 0x0d, 0x0a,
                ]
            } else {
                Seq::empty()
            };
            let announced = answers::framed(4, 0, 0, settings::settings_wire(c.local));
            let more = if c.target > 65535 {
                answers::framed(8, 0, 0, answers::word(c.target - 65535))
            } else {
                Seq::empty()
            };
            &&& v.egress.bytes == first + announced + more
            &&& v.egress.outgoing() == first + announced + more
            &&& v.send_window.value == 65535
            &&& v.recv_window.value == (if c.target > 65535 {
                c.target as int
            } else {
                65535
            })
            &&& v.local == c.local
            &&& v.peer.initial_window_size == 65535
            &&& v.peer.max_frame_size == 16384
            &&& v.peer.header_table_size == 4096
            &&& v.streams.records =~= Map::empty()
            &&& v.streams.next_local == Some(first_local)
            &&& v.streams.last_peer == 0
            &&& v.ingress.preface_done == preface
            &&& !v.goaway_sent && v.goaway_received is None
        }),
{
    wire::law_the_preface_is_fixed();
    wire::law_defaults_are_those_of_the_protocol();
    let v = conn::model::initial(c, preface, first_local);
    let params = settings::settings_wire(c.local);
    let a = FrameView::Settings { ack: false, params };
    assert(params.len() <= 36);
    assert(params.len() % 6 == 0);
    wire::law_frames_have_their_bytes(a);
    if c.target > 65535 {
        let b = FrameView::WindowUpdate { stream: 0, increment: (c.target - 65535) as u32 };
        wire::law_frames_have_their_bytes(b);
    }
    let first = if preface {
        crate::h2::ingress::preface()
    } else {
        Seq::<u8>::empty()
    };
    let announced = answers::framed(4, 0, 0, params);
    assert(first + announced + Seq::<u8>::empty() =~= first + announced);
    assert(v.egress.payloads.len() == 0);
    assert(v.egress.outgoing() =~= v.egress.bytes);
}

/// Which configurations are refused, and why: a capacity of zero, more streams than can be
/// numbered, a window that is larger than windows can be, and frames of a length that the protocol
/// does not have.
pub proof fn law_configurations_are_checked(c: Config, server: bool, preface: bool)
    ensures
        ({
            let r = config::validated(c, server, preface);
            let whole = c.stream_capacity > 0 && c.event_capacity > 0 && c.data_capacity > 0
                && c.header_capacity > 0 && c.inbound_capacity > 0 && c.outbound_capacity > 0;
            let local = c.local_settings;
            &&& c.stream_capacity == 0 ==> r == Err::<ValidatedView, ConfigError>(
                ConfigError::ZeroCapacity("stream"),
            )
            &&& c.stream_capacity > 0 && c.event_capacity == 0 ==> r == Err::<
                ValidatedView,
                ConfigError,
            >(ConfigError::ZeroCapacity("event"))
            &&& r is Ok ==> whole
            &&& whole && c.stream_capacity > u32::MAX ==> r == Err::<ValidatedView, ConfigError>(
                ConfigError::StreamCapacityOverflow,
            )
            &&& whole && c.stream_capacity <= u32::MAX && local.initial_window_size > 0x7fff_ffff
                ==> r == Err::<ValidatedView, ConfigError>(ConfigError::InitialWindowOverflow)
            &&& whole && c.stream_capacity <= u32::MAX && local.initial_window_size <= 0x7fff_ffff
                && c.recv_window_target > 0x7fff_ffff ==> r == Err::<ValidatedView, ConfigError>(
                ConfigError::ReceiveWindowOverflow,
            )
            &&& whole && c.stream_capacity <= u32::MAX && local.initial_window_size <= 0x7fff_ffff
                && c.recv_window_target <= 0x7fff_ffff && !(16384 <= local.max_frame_size
                <= 16777215) ==> r == Err::<ValidatedView, ConfigError>(
                ConfigError::InvalidMaxFrameSize,
            )
            &&& r is Ok ==> c.outbound_capacity >= 45 + (if preface {
                24int
            } else {
                0
            }) + (if c.recv_window_target > 65535 {
                13int
            } else {
                0
            })
            &&& r matches Ok(v) ==> {
                &&& v.target == c.recv_window_target
                &&& v.streams == c.stream_capacity
                &&& v.events == c.event_capacity
                &&& v.inbound == c.inbound_capacity
                &&& v.outbound == c.outbound_capacity
                &&& v.data_slots == c.data_capacity
                &&& v.header_slots == c.header_capacity
            }
        }),
{
}

/// What is announced of a configuration: no more streams than there is room for, a limit for header
/// fields in any case, and by a server that it takes no promises. The rest is as it was set.
pub proof fn law_settings_are_announced_as_they_are(c: Config, server: bool)
    requires
        c.stream_capacity <= u32::MAX,
    ensures
        ({
            let a = config::announced_settings(c, server);
            let local = c.local_settings;
            &&& server ==> !a.enable_push
            &&& !server ==> a.enable_push == local.enable_push
            &&& a.max_concurrent_streams matches Some(n) && n <= c.stream_capacity && (
            local.max_concurrent_streams matches Some(limit) ==> n <= limit && (limit
                <= c.stream_capacity ==> n == limit)) && (local.max_concurrent_streams is None
                ==> n == c.stream_capacity)
            &&& local.max_header_list_size is None ==> a.max_header_list_size == Some(16384u32)
            &&& local.max_header_list_size is Some ==> a.max_header_list_size
                == local.max_header_list_size
            &&& a.initial_window_size == local.initial_window_size
            &&& a.max_frame_size == local.max_frame_size
            &&& local.header_table_size <= 0x3fff_ffff ==> a.header_table_size
                == local.header_table_size
        }),
{
}

/// The configuration that nothing was said about.
pub proof fn law_the_usual_configuration_has_these_sizes()
    ensures
        ({
            let c = config::default_config();
            &&& c.local_settings.initial_window_size == 4194304
            &&& c.local_settings.max_frame_size == 16384
            &&& c.local_settings.header_table_size == 4096
            &&& c.recv_window_target == 16777216
            &&& c.stream_capacity == 256
            &&& c.event_capacity == 8192
            &&& c.data_capacity == 64
            &&& c.header_capacity == 64
            &&& c.inbound_capacity == 1048576
            &&& c.outbound_capacity == 1048576
        }),
{
    tuning::lemma_throughput();
}

/// A server can be set up where nothing that it needs is zero and its tasks can be numbered; the
/// first thing that is wrong is said.
pub proof fn law_servers_need_these_limits(c: server::config::Config, asynchronous: bool)
    ensures
        server::config::config_fault(c, asynchronous) is None <==> c.max_connections > 0 && (
        asynchronous ==> c.max_handler_tasks > 0) && c.max_outbound_bytes > 0
            && c.receive_buffer_bytes > 0 && c.receive_buffer_count > 0 && c.max_handler_tasks
            <= u32::MAX,
        c.max_connections == 0 ==> server::config::config_fault(c, asynchronous) == Some(
            "max_connections must be greater than zero",
        ),
        c.max_connections > 0 && asynchronous && c.max_handler_tasks == 0
            ==> server::config::config_fault(c, asynchronous) == Some(
            "max_handler_tasks must be greater than zero",
        ),
{
}

/// Header fields fit a limit where their names, their values and thirty-two for each come to no
/// more than it; without a limit all fit.
pub proof fn law_fields_fit_their_limit(fields: Seq<FieldView>, limit: u32)
    ensures
        event::block_fits(fields, Some(limit)) == (coding::weight(fields) <= limit),
        event::block_fits(fields, None),
{
    coding::lemma_weight(fields);
}

} // verus!
