//! Verified core of a networked mutex broker.

pub mod broker;
pub mod cli_flags;
pub mod client;
pub mod clock;
pub mod config;
pub mod directives;
pub mod fenced_client;
pub mod frames;
pub mod hardened_broker;
pub mod ids;
pub mod metrics;
pub mod ordered_map;
pub mod protocol;
pub mod queue;
pub mod routine;
pub mod scan;
pub mod server;
pub mod sums;
pub mod text;
