//! Credential rotation for a gateway in front of one upstream API.
//!
//! Clients of the gateway share one secret; the gateway holds a pool of
//! upstream credentials and puts one of them on every call it passes on.
//! This library is the part of the gateway that decides:
//!
//! - [`juggler`] keeps the pool: which credential is used next, which are
//!   blocked and until when, which are gone for good;
//! - [`requester`] says what is sent upstream for one attempt and what the
//!   answer amounts to;
//! - [`relay`] says what follows each attempt, until a request is answered
//!   or given up;
//! - [`status`], [`mask`], [`auth`], [`body`] and [`config`] serve the
//!   endpoints around them.
//!
//! The contracts speak of the pool through its model in [`model`]; what
//! holds of the pool across operations is stated and proved in [`laws`].
//! The library performs no I/O. Its caller makes the upstream calls and
//! holds the pool under one lock for the length of a request.

pub mod auth;
pub mod body;
mod clock;
pub mod config;
pub mod juggler;
pub mod laws;
pub mod mask;
pub mod model;
pub mod relay;
pub mod requester;
pub mod status;
