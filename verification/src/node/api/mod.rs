//! The requests that nodes serve.

pub mod messages;
