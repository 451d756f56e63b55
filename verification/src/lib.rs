//! A TCP port scanner's core: how the port space is split among concurrent
//! workers, how their discoveries are gathered into one ordered list, and how
//! a command line is turned into a scan configuration.

pub mod config;
pub mod engine;
pub mod partition;
pub mod results;
pub mod text;
