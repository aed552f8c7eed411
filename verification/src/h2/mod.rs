//! HTTP/2.

pub mod client;
pub mod config;
pub mod conn;
pub mod egress;
pub mod error;
pub mod event;
pub mod flow;
pub mod frame;
pub mod hpack;
pub mod ingress;
pub mod retained_segments;
pub mod role;
pub mod server;
pub mod settings;
pub mod start;
pub mod stream;
pub mod stream_registry;
pub mod tuning;
pub mod validate;
pub mod wire;

pub use conn::{ConfigError, Conn, ConnError, Settings, ValidatedConfig};
pub use frame::{ErrorCode, Flags, Frame, FrameHeader, FrameLength, WindowIncrement};
pub use hpack::Header;
pub use ingress::client_preface;
pub use role::{ClientRole, Role, ServerRole};
pub use stream::{Side, Stream, StreamId};
