//! Serving requests on a connection.

pub mod app;
pub mod body;
pub mod config;
pub mod connection;
pub mod driver;
pub mod laws;
pub mod progress;
pub mod requests;
pub mod model;
pub mod tasks;

pub use app::{SyncApp, SyncConnState, SyncHandler};
pub use body::Body;
pub use config::Config;
pub use connection::{Request, Response};
