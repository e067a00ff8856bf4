//! Uptime monitoring core: a store of monitors, check results and alerts,
//! the recording of probe outcomes, and rate-limited alert dispatch.

pub mod text;
pub mod storage;
pub mod clock;
pub mod alert;
pub mod daemon;
pub mod config;
pub mod monitor;
pub mod cli;
pub mod smtp;

pub use crate::config::Config;
