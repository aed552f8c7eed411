//! HTTP/2 framing, header compression, flow control and connection state,
//! together with the gRPC protocol on top of it. Nothing in here performs I/O.

pub mod bytes;
pub mod chains;
pub mod collections;
pub mod digits;
pub mod grpc;
pub mod h2;
