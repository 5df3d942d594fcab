//! The immune system's vocabulary, shared with the transport layer.

pub use crate::transport::immunity::{NodeStatus, ThreatType};
