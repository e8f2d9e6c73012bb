//! Verified core of a networked 3D-printer monitor: wire-format parsers for
//! the line-oriented device protocol, snapshot aggregation with a stable JSON
//! encoding, a viewer-connection hub, and the command dispatcher.
pub mod dispatch;
pub mod files;
pub mod hub;
pub mod json;
pub mod num;
pub mod protocol;
pub mod snapshot;
pub mod state;
pub mod text;
