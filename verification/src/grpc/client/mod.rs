//! The calls of a client.

pub mod call;
pub mod endings;
pub mod events;
pub mod ingress;
pub mod laws;
pub mod model;
pub mod outgoing;
pub mod session;
pub mod setup;
pub mod waking;

pub use ingress::{StreamEvent, TypedStreamEvent, UnaryResult};
pub use model::ResponseMode;
pub use session::{Config, Session};
