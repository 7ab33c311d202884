//! What a client computes: encryption and manifests.
pub mod encrypt;
pub mod manifest;
