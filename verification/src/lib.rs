//! Verified core of an Android automation toolkit: ADB wire-protocol framing,
//! ADB command/response handling, and the accessibility-tree UI pipeline.

pub mod text;
pub mod adb_error;
pub mod models;
pub mod outside;
pub mod wire;
pub mod sync;
pub mod recv;
pub mod device;
pub mod server;
pub mod geometry;
pub mod json;
pub mod error;
pub mod coord;
pub mod state;
pub mod sort;
pub mod filter;
pub mod formatter;
pub mod search;
pub mod driver;
pub mod portal;
pub mod manager;
pub mod provider;
