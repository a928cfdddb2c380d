//! Verified core of a matrix-multiplication network service.
//!
//! The library owns the matrix engine (storage, shape, fill, multiply) and
//! the streaming decode layer that turns an arbitrarily chunked byte stream
//! into complete matrices, pairs them, and produces the bytes of each reply.
//! Transport (sockets, tasks) and the structured-schema codec live outside
//! the library and hand it plain values.

pub mod matrix;
pub mod raw;
pub mod session;
pub mod wire;
