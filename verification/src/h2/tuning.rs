//! Resource profiles.

use vstd::prelude::*;

verus! {

/// The windows and buffer limits of a connection.
pub trait Tuning {
    const MAX_ACTIVE_STREAMS: usize = 256;

    const STREAM_RECV_WINDOW: u32;

    const CONN_RECV_WINDOW: u32;

    const MAX_BODY_LEN: usize;

    const MAX_CONN_BUFFERED_LEN: usize;
}

/// Large windows for bulk transfer.
#[derive(Copy, Clone, Debug)]
pub struct Throughput;

/// Windows for mixed traffic.
#[derive(Copy, Clone, Debug)]
pub struct Balanced;

/// Small windows for short exchanges.
#[derive(Copy, Clone, Debug)]
pub struct LowLatency;

impl Tuning for Throughput {
    const STREAM_RECV_WINDOW: u32 = 4_194_304;

    const CONN_RECV_WINDOW: u32 = 16_777_216;

    const MAX_BODY_LEN: usize = 16_777_216;

    const MAX_CONN_BUFFERED_LEN: usize = 67_108_864;
}

impl Tuning for Balanced {
    const STREAM_RECV_WINDOW: u32 = 1_048_576;

    const CONN_RECV_WINDOW: u32 = 8_388_608;

    const MAX_BODY_LEN: usize = 4_194_304;

    const MAX_CONN_BUFFERED_LEN: usize = 16_777_216;
}

impl Tuning for LowLatency {
    const STREAM_RECV_WINDOW: u32 = 262_144;

    const CONN_RECV_WINDOW: u32 = 1_048_576;

    const MAX_BODY_LEN: usize = 1_048_576;

    const MAX_CONN_BUFFERED_LEN: usize = 4_194_304;
}

/// The windows for bulk transfer.
pub proof fn lemma_throughput()
    ensures
        Throughput::STREAM_RECV_WINDOW == 4_194_304,
        Throughput::CONN_RECV_WINDOW == 16_777_216,
{
}

/// The windows and limits of the profiles.
pub proof fn law_profiles_have_these_sizes()
    ensures
        Throughput::STREAM_RECV_WINDOW == 4_194_304,
        Throughput::CONN_RECV_WINDOW == 16_777_216,
        Throughput::MAX_BODY_LEN == 16_777_216,
        Throughput::MAX_CONN_BUFFERED_LEN == 67_108_864,
        Balanced::STREAM_RECV_WINDOW == 1_048_576,
        Balanced::CONN_RECV_WINDOW == 8_388_608,
        Balanced::MAX_BODY_LEN == 4_194_304,
        Balanced::MAX_CONN_BUFFERED_LEN == 16_777_216,
        LowLatency::STREAM_RECV_WINDOW == 262_144,
        LowLatency::CONN_RECV_WINDOW == 1_048_576,
        LowLatency::MAX_BODY_LEN == 1_048_576,
        LowLatency::MAX_CONN_BUFFERED_LEN == 4_194_304,
{
}

/// Every profile lets the connection receive at least what one stream may receive, and
/// buffers at least one whole body.
pub proof fn law_profiles_are_consistent()
    ensures
        Throughput::CONN_RECV_WINDOW >= Throughput::STREAM_RECV_WINDOW,
        Balanced::CONN_RECV_WINDOW >= Balanced::STREAM_RECV_WINDOW,
        LowLatency::CONN_RECV_WINDOW >= LowLatency::STREAM_RECV_WINDOW,
        Throughput::MAX_CONN_BUFFERED_LEN >= Throughput::MAX_BODY_LEN,
        Balanced::MAX_CONN_BUFFERED_LEN >= Balanced::MAX_BODY_LEN,
        LowLatency::MAX_CONN_BUFFERED_LEN >= LowLatency::MAX_BODY_LEN,
{
}

} // verus!
