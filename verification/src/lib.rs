//! The logic of a host agent: what it reads out of the tools it runs, which
//! snapshots it keeps and serves, whom it lets in, and when it replaces its
//! own binary. Everything that touches the network, the disk or a clock lives
//! in the program around this library.

pub mod config;
pub mod crypto;
pub mod document;
pub mod number;
pub mod release;
pub mod rounding;
pub mod text;
pub mod storage;
pub mod telemetry;
pub mod transport;
pub mod update;
pub mod version;
