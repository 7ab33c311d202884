//! The metadata index: replicated commands, the state they build, and its API.
pub mod auth;
pub mod effects;
pub mod laws;
pub mod log;
pub mod machine;
pub mod model;
pub mod remote;
pub mod replies;
pub mod state;
pub mod types;
