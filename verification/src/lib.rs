//! Failure-tracking core of a sharded connection proxy: a registry that
//! marks backend replica endpoints as temporarily unusable after failures
//! and decides when they may be returned to service.

pub mod ban_service;
pub mod clock;
pub mod endpoint;
pub mod laws;
