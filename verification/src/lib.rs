//! A live dashboard's core: a tagged line protocol, a bounded chat transcript
//! with two last-writer-wins text fields, and the framing that turns a byte
//! stream into updates of that view model.

pub mod connection;
pub mod framing;
pub mod laws;
pub mod model;
pub mod protocol;
pub mod render;
pub mod shared;
pub mod stream_laws;
pub mod text;
