//! What a client starts with.

use crate::grpc::client::session;
use crate::grpc::client::session::Config;
use crate::h2::conn::answers;
use crate::h2::settings;
use crate::h2::start;
use vstd::prelude::*;

verus! {

/// The configuration that nothing was said about, and what a configuration needs: room for a call
/// and for a message that waits.
pub proof fn law_configurations_are_checked(c: Config)
    ensures
        session::default_config() == (Config {
            max_in_flight: 256,
            max_completed: 256,
            max_events: 8192,
            max_pending_msgs: 4,
            max_pending_len: 4194309,
            max_message_len: 4194304,
            max_buffered_len: 16777216,
            max_buffered_msgs: 8192,
        }),
        session::is_good(c) ==> c.max_in_flight > 0 && c.max_pending_msgs > 0 && c.max_pending_len
            > 0,
        session::connection_config(c).stream_capacity == c.max_in_flight,
{
}

/// A client starts with no calls, with the room that its configuration gives it, and with the
/// preface and its settings to send.
#[verifier::rlimit(60)]
pub proof fn law_clients_begin(c: Config)
    requires
        session::is_good(c),
    ensures
        ({
            let v = session::initial(c);
            &&& v.calls.calls =~= Map::empty()
            &&& v.calls.capacity == c.max_in_flight
            &&& v.calls.pending.len() == 0
            &&& v.calls.room.held == 0
            &&& v.calls.room.limit == c.max_pending_msgs
            &&& v.calls.max_message == c.max_message_len
            &&& v.calls.max_pending == c.max_pending_len
            &&& v.inbox.complete.len() == 0
            &&& v.inbox.complete_capacity == c.max_completed
            &&& v.inbox.events.len() == 0
            &&& v.inbox.event_capacity == c.max_events
            &&& v.inbox.max_len == c.max_buffered_len
            &&& v.inbox.max_msgs == c.max_buffered_msgs
            &&& v.conn.streams.next_local == Some(1u32)
            &&& v.conn.ingress.preface_done
            &&& v.conn.egress.bytes == seq![
                0x50u8, 0x52, 0x49, 0x20, 0x2a, 0x20, 0x48, 0x54, 0x54, 0x50, 0x2f, 0x32, 0x2e,
                0x30, 0x0d, 0x0a, 0x0d, 0x0a, 0x53, 0x4d, 0x0d, 0x0a, 0x0d, 0x0a,
            ] + answers::framed(4, 0, 0, settings::settings_wire(v.conn.local))
                + answers::framed(8, 0, 0, answers::word(16777216 - 65535))
        }),
{
    start::law_the_usual_configuration_has_these_sizes();
    let good = crate::h2::config::validated(session::connection_config(c), false, true)->Ok_0;
    start::law_connections_begin(good, true, 1);
}

} // verus!
