//! Data-access core of a small entry service: a bounded-window entry store
//! with deterministic content fingerprints, sentinel-string responses, and
//! the position-to-identifier resolution policy used by its routes.

pub mod codec;
pub mod fingerprint;
pub mod laws;
pub mod models;
pub mod resolver;
pub mod store;
