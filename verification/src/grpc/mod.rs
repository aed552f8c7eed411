//! gRPC.

pub mod client;
pub mod codec;
pub mod frame;
pub mod headers;
pub mod laws;
pub mod metadata;
pub mod protocol;
pub mod server;
pub mod status;
pub mod text;

pub use crate::h2::StreamId;
pub use client::{Session, StreamEvent, TypedStreamEvent, UnaryResult};
pub use codec::Codec;
pub use frame::{Deframer, FrameError, MessageFrame, Payload};
pub use headers::{HeaderBlock, RequestHead, ResponseHead};
pub use metadata::{Metadata, MetadataEntry, MetadataError};
pub use server::{
    LiveMessage, LiveResponse, LiveStreaming, LiveStreamingHandler, LiveTrailers, Request,
    Response, Routes, ServiceHandler, ServiceRoutes, ServiceStreaming, ServiceUnary, StreamMode,
    StreamReply, Streaming, StreamingHandler, StreamingRequest, StreamingResponse,
    StreamingService, Unary, UnaryHandler, UnaryRequest, UnaryResponse, UnaryService,
};
pub use status::{Code, Status};
