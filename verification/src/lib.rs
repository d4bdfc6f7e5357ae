//! Ledger core of a minimal proof-of-work cryptocurrency node: a chain of
//! blocks kept in a key/value store, with per-block undo journals,
//! speculative execution on an in-memory overlay and a fork choice by
//! accumulated work.

pub mod blockchain;
pub mod bytes;
pub mod codec;
pub mod config;
pub mod crypto;
pub mod db;
pub mod merkle;
pub mod node;
pub mod types;
pub mod utils;
pub mod wallet;
