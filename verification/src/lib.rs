//! Supervision of an external application with durable state capture.
//!
//! The library persists incremental state snapshots that a supervised
//! application emits on its output stream, and decides, from the timing of
//! those snapshots, when the application is done.

pub mod backend;
pub mod commands;
pub mod config;
pub mod json;
pub mod state;
pub mod timestamp;
