//! Laws of the library as its callers see it: what comes of its calls, and how calls
//! relate to each other.
pub mod documentation;
pub mod exchange;
pub mod messages;
pub mod pipeline;
pub mod requests;
pub mod services;
pub mod settings;
pub mod state;
