//! A broker for push-notification connections: a registry of authenticated
//! peers owned by one task, the commands that change it or send through it,
//! and the per-connection state machine that admits peers to it.
pub mod addr;
pub mod broker;
pub mod laws;
pub mod notice;
pub mod registry;
pub mod session;
