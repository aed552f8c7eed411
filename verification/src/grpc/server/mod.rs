//! The calls of a server.

pub mod adapters;
pub mod answering;
pub mod app;
pub mod call;
pub mod delivery;
pub mod events;
pub mod laws;
pub mod limits;
pub mod live;
pub mod liveness;
pub mod model;
pub mod reply;
pub mod routes;
pub mod service;
pub mod serving;
pub mod voices;
pub mod waking;

pub use crate::h2::config::ConfigError;
pub use adapters::{
    ServiceStreaming, ServiceUnary, Streaming, StreamingHandler, StreamingService, Unary,
    UnaryHandler, UnaryService,
};
pub use app::{Action, App, ConnState};
pub use limits::{Limits, ValidatedLimits};
pub use live::{LiveStreaming, LiveStreamingHandler};
pub use liveness::{is_h2_preface_prefix, Liveness};
pub use reply::{
    LiveMessage, LiveResponse, LiveTrailers, MessageList, Request, Response, StreamMode,
    StreamReply, StreamRoutes, StreamingRequest, StreamingResponse, UnaryRequest, UnaryResponse,
};
pub use routes::{Handler, Routes};
pub use service::{ServiceHandler, ServiceRoutes};
