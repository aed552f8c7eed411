//! The limits of a server.

use vstd::prelude::*;

verus! {

/// What a server is built from, apart from the address that it listens on.
#[derive(Copy, Clone, Debug)]
pub struct Config {
    pub max_connections: usize,
    pub max_connections_per_ip: u32,
    pub listen_backlog: i32,
    pub max_handler_tasks: usize,
    pub max_request_body_bytes: usize,
    pub max_connection_body_bytes: usize,
    pub max_outbound_bytes: usize,
    pub socket_receive_buffer_bytes: Option<usize>,
    pub socket_send_buffer_bytes: Option<usize>,
    pub tcp_fast_open_backlog: Option<u32>,
    pub receive_buffer_bytes: usize,
    pub receive_buffer_count: u16,
}

/// What is wrong with a configuration, if anything is.
pub open spec fn config_fault(c: Config, asynchronous: bool) -> Option<&'static str> {
    if c.max_connections == 0 {
        Some("max_connections must be greater than zero")
    } else if asynchronous && c.max_handler_tasks == 0 {
        Some("max_handler_tasks must be greater than zero")
    } else if c.max_outbound_bytes == 0 {
        Some("max_outbound_bytes must be greater than zero")
    } else if c.receive_buffer_bytes == 0 {
        Some("receive_buffer_bytes must be greater than zero")
    } else if c.receive_buffer_count == 0 {
        Some("receive_buffer_count must be greater than zero")
    } else if c.max_handler_tasks > u32::MAX {
        Some("max_handler_tasks exceeds u32::MAX")
    } else {
        None
    }
}

impl Config {
    pub fn validate(self, asynchronous: bool) -> (r: Result<Self, &'static str>)
        ensures
            r == (match config_fault(self, asynchronous) {
                Some(message) => Err::<Config, &'static str>(message),
                None => Ok(self),
            }),
    {
        if self.max_connections == 0 {
            return Err("max_connections must be greater than zero");
        }
        if asynchronous && self.max_handler_tasks == 0 {
            return Err("max_handler_tasks must be greater than zero");
        }
        if self.max_outbound_bytes == 0 {
            return Err("max_outbound_bytes must be greater than zero");
        }
        if self.receive_buffer_bytes == 0 {
            return Err("receive_buffer_bytes must be greater than zero");
        }
        if self.receive_buffer_count == 0 {
            return Err("receive_buffer_count must be greater than zero");
        }
        if self.max_handler_tasks > u32::MAX as usize {
            return Err("max_handler_tasks exceeds u32::MAX");
        }
        Ok(self)
    }

    pub fn limits(&self) -> (r: Limits)
        ensures
            r == (Limits {
                max_request_body_bytes: self.max_request_body_bytes,
                max_connection_body_bytes: self.max_connection_body_bytes,
                max_outbound_bytes: self.max_outbound_bytes,
            }),
    {
        Limits {
            max_request_body_bytes: self.max_request_body_bytes,
            max_connection_body_bytes: self.max_connection_body_bytes,
            max_outbound_bytes: self.max_outbound_bytes,
        }
    }
}

/// How much a server buffers.
#[derive(Copy, Clone, Debug)]
pub struct Limits {
    pub max_request_body_bytes: usize,
    pub max_connection_body_bytes: usize,
    pub max_outbound_bytes: usize,
}

} // verus!
