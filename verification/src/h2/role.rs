//! The two ends of a connection.

use vstd::prelude::*;

verus! {

/// Which end of a connection this is. The identifiers are those that this end and its peer
/// use for the first stream that each of them opens.
pub trait Role: Copy {
    const IS_SERVER: bool;

    const FIRST_LOCAL_STREAM_ID: u32;

    const FIRST_PEER_STREAM_ID: u32;

    const PREFACE_SENDS_FIRST: bool;
}

#[derive(Copy, Clone, Default, Debug)]
pub struct ServerRole;

impl Role for ServerRole {
    const IS_SERVER: bool = true;

    const FIRST_LOCAL_STREAM_ID: u32 = 2;

    const FIRST_PEER_STREAM_ID: u32 = 1;

    const PREFACE_SENDS_FIRST: bool = false;
}

#[derive(Copy, Clone, Default, Debug)]
pub struct ClientRole;

impl Role for ClientRole {
    const IS_SERVER: bool = false;

    const FIRST_LOCAL_STREAM_ID: u32 = 1;

    const FIRST_PEER_STREAM_ID: u32 = 2;

    const PREFACE_SENDS_FIRST: bool = true;
}

/// What is fixed for a server.
pub proof fn lemma_server()
    ensures
        ServerRole::IS_SERVER,
        ServerRole::FIRST_LOCAL_STREAM_ID == 2,
        ServerRole::FIRST_PEER_STREAM_ID == 1,
        !ServerRole::PREFACE_SENDS_FIRST,
{
}

/// What is fixed for a client.
pub proof fn lemma_client()
    ensures
        !ClientRole::IS_SERVER,
        ClientRole::FIRST_LOCAL_STREAM_ID == 1,
        ClientRole::FIRST_PEER_STREAM_ID == 2,
        ClientRole::PREFACE_SENDS_FIRST,
{
}

} // verus!
